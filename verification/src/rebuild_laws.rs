//! What a rebuilt tree holds: which keys of a flat map become texts of the
//! tree, and where.

use crate::flatten::{
    flat_keys, flat_map, flatten_tree, insert_path, merge_tree, overlay, unflatten_tree, Flat,
};
use crate::flatten_laws::{
    build, distinct_paths, lemma_flat_map_keys, lemma_unflatten_is_build, paths_of, PathEntries,
};
use crate::json::{member_keys, Tree};
use crate::text::{lemma_join_split, lemma_split_nonempty, split_on};
use vstd::prelude::*;

verus! {

/// The text at the end of the way `path` below `members`, where the way
/// leads through objects to a text.
pub open spec fn text_in(members: Seq<(Seq<char>, Tree)>, path: Seq<Seq<char>>) -> Option<
    Seq<char>,
>
    decreases path.len(),
{
    if path.len() == 0 || !member_keys(members).contains(path[0]) {
        None
    } else {
        let child = members[member_keys(members).index_of(path[0])].1;
        if path.len() == 1 {
            match child {
                Tree::Text(s) => Some(s),
                _ => None,
            }
        } else {
            match child {
                Tree::Object(inner) => text_in(inner, path.skip(1)),
                _ => None,
            }
        }
    }
}

/// The text at the end of the way `path` in `tree`.
pub open spec fn text_at(tree: Tree, path: Seq<Seq<char>>) -> Option<Seq<char>> {
    text_in(tree.members(), path)
}

/// The way `path` is blocked below `members`: before its end it comes to a
/// member that is no object.
pub open spec fn blocked(members: Seq<(Seq<char>, Tree)>, path: Seq<Seq<char>>) -> bool
    decreases path.len(),
{
    path.len() >= 2 && member_keys(members).contains(path[0]) && match members[member_keys(
        members,
    ).index_of(path[0])].1 {
        Tree::Object(inner) => blocked(inner, path.skip(1)),
        _ => true,
    }
}

/// `p` is the start of `q`.
pub open spec fn starts(p: Seq<Seq<char>>, q: Seq<Seq<char>>) -> bool {
    p.len() <= q.len() && q.take(p.len() as int) == p
}

/// `p` is the start of `q` and shorter.
pub open spec fn starts_short(p: Seq<Seq<char>>, q: Seq<Seq<char>>) -> bool {
    p.len() < q.len() && q.take(p.len() as int) == p
}

/// Every node below `members` is a text or an object.
pub open spec fn textual(members: Seq<(Seq<char>, Tree)>) -> bool
    decreases members,
{
    forall|i: int|
        0 <= i < members.len() ==> match (#[trigger] members[i]).1 {
            Tree::Text(_) => true,
            Tree::Object(inner) => textual(inner),
            _ => false,
        }
}

/// Two ways with one first key are equal, or one the start of the other, as
/// their rests are.
pub proof fn lemma_paths_by_head(p: Seq<Seq<char>>, q: Seq<Seq<char>>)
    requires
        p.len() >= 1,
    ensures
        q == p <==> q.len() >= 1 && q[0] == p[0] && q.skip(1) == p.skip(1),
        starts(p, q) <==> q.len() >= 1 && q[0] == p[0] && starts(p.skip(1), q.skip(1)),
        starts_short(p, q) <==> q.len() >= 1 && q[0] == p[0] && starts_short(
            p.skip(1),
            q.skip(1),
        ),
{
    if q.len() >= 1 && q[0] == p[0] && q.skip(1) == p.skip(1) {
        assert(q =~= seq![q[0]] + q.skip(1));
        assert(p =~= seq![p[0]] + p.skip(1));
    }
    if p.len() <= q.len() {
        let a = q.take(p.len() as int);
        let b = q.skip(1).take(p.len() - 1);
        if a == p {
            assert(a[0] == p[0]);
            assert(b =~= p.skip(1)) by {
                assert forall|i: int| 0 <= i < b.len() implies b[i] == p.skip(1)[i] by {
                    assert(a[i + 1] == p[i + 1]);
                }
            }
        }
        if q[0] == p[0] && b == p.skip(1) {
            assert(a =~= p) by {
                assert forall|i: int| 0 <= i < a.len() implies a[i] == p[i] by {
                    if i > 0 {
                        assert(b[i - 1] == p.skip(1)[i - 1]);
                    }
                }
            }
        }
    }
}

/// Setting a text keeps the keys of every object distinct.
pub proof fn lemma_insert_unique(
    members: Seq<(Seq<char>, Tree)>,
    path: Seq<Seq<char>>,
    value: Seq<char>,
)
    requires
        Tree::Object(members).unique_keys(),
        textual(members),
    ensures
        Tree::Object(insert_path(members, path, value)).unique_keys(),
        textual(insert_path(members, path, value)),
    decreases path.len(),
{
    if path.len() > 0 {
        let head = path[0];
        let keys = member_keys(members);
        if path.len() == 1 {
            if keys.contains(head) {
                let at = keys.index_of(head);
                assert(keys[at] == head);
                crate::flatten::lemma_update_member(members, at, head, Tree::Text(value));
                let after = members.update(at, (head, Tree::Text(value)));
                assert forall|i: int| 0 <= i < after.len() implies match (#[trigger] after[i]).1 {
                    Tree::Text(_) => true,
                    Tree::Object(inner) => textual(inner),
                    _ => false,
                } by {
                    if i != at {
                        assert(after[i] == members[i]);
                    }
                }
            } else {
                crate::flatten::lemma_push_member(members, head, Tree::Text(value));
                let after = members.push((head, Tree::Text(value)));
                assert forall|i: int| 0 <= i < after.len() implies match (#[trigger] after[i]).1 {
                    Tree::Text(_) => true,
                    Tree::Object(inner) => textual(inner),
                    _ => false,
                } by {
                    if i < members.len() {
                        assert(after[i] == members[i]);
                    }
                }
            }
        } else if !keys.contains(head) {
            let none = Seq::<(Seq<char>, Tree)>::empty();
            assert(member_keys(none) =~= Seq::<Seq<char>>::empty());
            lemma_insert_unique(none, path.skip(1), value);
            let child = Tree::Object(insert_path(none, path.skip(1), value));
            crate::flatten::lemma_push_member(members, head, child);
            let after = members.push((head, child));
            assert forall|i: int| 0 <= i < after.len() implies match (#[trigger] after[i]).1 {
                Tree::Text(_) => true,
                Tree::Object(inner) => textual(inner),
                _ => false,
            } by {
                if i < members.len() {
                    assert(after[i] == members[i]);
                }
            }
        } else {
            let at = keys.index_of(head);
            assert(keys[at] == head);
            match members[at].1 {
                Tree::Object(inner) => {
                    assert(members[at].1.unique_keys());
                    lemma_insert_unique(inner, path.skip(1), value);
                    let child = Tree::Object(insert_path(inner, path.skip(1), value));
                    crate::flatten::lemma_update_member(members, at, head, child);
                    let after = members.update(at, (head, child));
                    assert forall|i: int| 0 <= i < after.len() implies match (
                    #[trigger] after[i]).1 {
                        Tree::Text(_) => true,
                        Tree::Object(inner) => textual(inner),
                        _ => false,
                    } by {
                        if i != at {
                            assert(after[i] == members[i]);
                        }
                    }
                },
                _ => {},
            }
        }
    }
}

/// Setting a text on a blocked way changes nothing.
pub proof fn lemma_insert_blocked(
    members: Seq<(Seq<char>, Tree)>,
    path: Seq<Seq<char>>,
    value: Seq<char>,
)
    requires
        blocked(members, path),
    ensures
        insert_path(members, path, value) == members,
    decreases path.len(),
{
    let keys = member_keys(members);
    let at = keys.index_of(path[0]);
    assert(keys[at] == path[0]);
    match members[at].1 {
        Tree::Object(inner) => {
            lemma_insert_blocked(inner, path.skip(1), value);
            assert(members.update(at, (path[0], Tree::Object(inner))) =~= members);
        },
        _ => {},
    }
}

/// Setting a text on a way that is not blocked puts the text at the end of
/// the way, takes away what was below it, and leaves every other text.
pub proof fn lemma_insert_texts(
    members: Seq<(Seq<char>, Tree)>,
    path: Seq<Seq<char>>,
    value: Seq<char>,
    other: Seq<Seq<char>>,
)
    requires
        Tree::Object(members).unique_keys(),
        path.len() >= 1,
        !blocked(members, path),
    ensures
        text_in(insert_path(members, path, value), other) == if other == path {
            Some(value)
        } else if starts(path, other) {
            None
        } else {
            text_in(members, other)
        },
    decreases path.len(),
{
    let head = path[0];
    let keys = member_keys(members);
    let after = insert_path(members, path, value);
    lemma_paths_by_head(path, other);
    if other.len() == 0 {
        assert(!starts(path, other));
    } else if path.len() == 1 {
        assert(path.skip(1) =~= Seq::<Seq<char>>::empty());
        if keys.contains(head) {
            let at = keys.index_of(head);
            assert(keys[at] == head);
            assert(member_keys(after) =~= keys);
            if other[0] == head {
                if other.len() == 1 {
                    assert(other.skip(1) =~= Seq::<Seq<char>>::empty());
                } else {
                    assert(other.skip(1).len() > 0);
                    assert(starts(path.skip(1), other.skip(1))) by {
                        assert(other.skip(1).take(0) =~= path.skip(1));
                    }
                }
            } else {
                if keys.contains(other[0]) {
                    let j = keys.index_of(other[0]);
                    assert(keys[j] == other[0]);
                    assert(after[j] == members[j]);
                }
            }
        } else {
            assert(member_keys(after) =~= keys.push(head));
            assert(member_keys(after)[members.len() as int] == head);
            if other[0] == head {
                let at = member_keys(after).index_of(head);
                assert(member_keys(after)[at] == head);
                if at < members.len() {
                    assert(keys[at] == head);
                    assert(keys.contains(head));
                }
                if other.len() == 1 {
                    assert(other.skip(1) =~= Seq::<Seq<char>>::empty());
                } else {
                    assert(other.skip(1).len() > 0);
                    assert(starts(path.skip(1), other.skip(1))) by {
                        assert(other.skip(1).take(0) =~= path.skip(1));
                    }
                }
            } else {
                lemma_pushed_lookup(members, (head, Tree::Text(value)), other[0]);
            }
        }
    } else if !keys.contains(head) {
        let none = Seq::<(Seq<char>, Tree)>::empty();
        assert(member_keys(none) =~= Seq::<Seq<char>>::empty());
        let inner = insert_path(none, path.skip(1), value);
        assert(member_keys(after) =~= keys.push(head));
        assert(member_keys(after)[members.len() as int] == head);
        if other[0] == head {
            let at = member_keys(after).index_of(head);
            assert(member_keys(after)[at] == head);
            if at < members.len() {
                assert(keys[at] == head);
                assert(keys.contains(head));
            }
            if other.len() >= 2 {
                lemma_insert_texts(none, path.skip(1), value, other.skip(1));
            } else {
                assert(other.skip(1).len() == 0);
                assert(!starts(path.skip(1), other.skip(1)));
                assert(other.skip(1) != path.skip(1));
            }
        } else {
            lemma_pushed_lookup(members, (head, Tree::Object(inner)), other[0]);
        }
    } else {
        let at = keys.index_of(head);
        assert(keys[at] == head);
        match members[at].1 {
            Tree::Object(inner) => {
                assert(members[at].1.unique_keys());
                assert(member_keys(after) =~= keys);
                if other[0] == head {
                    if other.len() >= 2 {
                        lemma_insert_texts(inner, path.skip(1), value, other.skip(1));
                    } else {
                        assert(other.skip(1).len() == 0);
                        assert(!starts(path.skip(1), other.skip(1)));
                        assert(other.skip(1) != path.skip(1));
                    }
                } else {
                    if keys.contains(other[0]) {
                        let j = keys.index_of(other[0]);
                        assert(keys[j] == other[0]);
                        assert(after[j] == members[j]);
                    }
                }
            },
            _ => {},
        }
    }
}

/// Looking up a key other than the pushed one finds what it found before.
pub proof fn lemma_pushed_lookup(
    members: Seq<(Seq<char>, Tree)>,
    pushed: (Seq<char>, Tree),
    key: Seq<char>,
)
    requires
        key != pushed.0,
        member_keys(members).no_duplicates(),
    ensures
        member_keys(members.push(pushed)).contains(key) <==> member_keys(members).contains(key),
        member_keys(members).contains(key) ==> members.push(pushed)[member_keys(
            members.push(pushed),
        ).index_of(key)] == members[member_keys(members).index_of(key)],
{
    let keys = member_keys(members);
    let after = member_keys(members.push(pushed));
    assert(after =~= keys.push(pushed.0));
    if keys.contains(key) {
        let i = keys.index_of(key);
        assert(keys[i] == key);
        assert(after[i] == key);
        let j = after.index_of(key);
        assert(after[j] == key);
        assert(j < keys.len());
        assert(keys[j] == key);
    }
    if after.contains(key) {
        let j = after.index_of(key);
        assert(after[j] == key);
        assert(keys[j] == key);
    }
}

/// A blocked way has a text before its end.
pub proof fn lemma_blocked_gives_text(members: Seq<(Seq<char>, Tree)>, path: Seq<Seq<char>>) -> (at:
    int)
    requires
        blocked(members, path),
        textual(members),
        Tree::Object(members).unique_keys(),
    ensures
        1 <= at < path.len(),
        text_in(members, path.take(at)) is Some,
    decreases path.len(),
{
    let keys = member_keys(members);
    let i = keys.index_of(path[0]);
    assert(keys[i] == path[0]);
    match members[i].1 {
        Tree::Object(inner) => {
            assert(members[i].1.unique_keys());
            let below = lemma_blocked_gives_text(inner, path.skip(1));
            let at = below + 1;
            assert(path.take(at)[0] == path[0]);
            assert(path.take(at).skip(1) =~= path.skip(1).take(below));
            at
        },
        _ => {
            assert(path.take(1)[0] == path[0]);
            1
        },
    }
}

/// A way with a text before its end is blocked.
pub proof fn lemma_text_blocks(members: Seq<(Seq<char>, Tree)>, path: Seq<Seq<char>>, at: int)
    requires
        1 <= at < path.len(),
        text_in(members, path.take(at)) is Some,
    ensures
        blocked(members, path),
    decreases path.len(),
{
    let keys = member_keys(members);
    let start = path.take(at);
    assert(start[0] == path[0]);
    let i = keys.index_of(path[0]);
    match members[i].1 {
        Tree::Object(inner) => {
            assert(at >= 2);
            assert(start.skip(1) =~= path.skip(1).take(at - 1));
            lemma_text_blocks(inner, path.skip(1), at - 1);
        },
        _ => {},
    }
}

/// The way of entry `i` is shadowed among the first `n` entries: one of
/// them has a way that is its start and shorter.
pub open spec fn shadowed(entries: PathEntries, n: nat, i: int) -> bool {
    exists|j: int| 0 <= j < n && j < entries.len() && starts_short((#[trigger] entries[j]).0, entries[i].0)
}

/// Every entry among the first `n` whose way is not shadowed has its text
/// at the end of its way.
#[verifier::opaque]
pub open spec fn texts_present(entries: PathEntries, n: nat, members: Seq<(Seq<char>, Tree)>) -> bool {
    forall|i: int|
        0 <= i < n && !shadowed(entries, n, i) ==> text_in(members, (#[trigger] entries[i]).0)
            == Some(entries[i].1)
}

/// Every text below `members` is that of an entry among the first `n` whose
/// way is not shadowed.
#[verifier::opaque]
pub open spec fn texts_owned(entries: PathEntries, n: nat, members: Seq<(Seq<char>, Tree)>) -> bool {
    forall|way: Seq<Seq<char>>| #[trigger]
        text_in(members, way) is Some ==> exists|i: int|
            0 <= i < n && (#[trigger] entries[i]).0 == way && !shadowed(entries, n, i)
}

/// What holds of the members built from the first `n` entries: every entry
/// whose way is not shadowed has its text at the end of its way, and every
/// text of the tree is that of such an entry.
pub open spec fn rebuilt(entries: PathEntries, n: nat, members: Seq<(Seq<char>, Tree)>) -> bool {
    &&& Tree::Object(members).unique_keys()
    &&& textual(members)
    &&& texts_present(entries, n, members)
    &&& texts_owned(entries, n, members)
}

/// The entry to which a text below `members` belongs.
pub proof fn lemma_owner(
    entries: PathEntries,
    n: nat,
    members: Seq<(Seq<char>, Tree)>,
    way: Seq<Seq<char>>,
) -> (i: int)
    requires
        texts_owned(entries, n, members),
        text_in(members, way) is Some,
    ensures
        0 <= i < n,
        entries[i].0 == way,
        !shadowed(entries, n, i),
{
    reveal(texts_owned);
    choose|i: int| 0 <= i < n && (#[trigger] entries[i]).0 == way && !shadowed(entries, n, i)
}

/// The text of an entry whose way is not shadowed.
pub proof fn lemma_present(
    entries: PathEntries,
    n: nat,
    members: Seq<(Seq<char>, Tree)>,
    i: int,
)
    requires
        texts_present(entries, n, members),
        0 <= i < n,
        !shadowed(entries, n, i),
    ensures
        text_in(members, entries[i].0) == Some(entries[i].1),
{
    reveal(texts_present);
}

/// Among the entries whose way is a shorter start of `way`, one is not
/// shadowed itself.
pub proof fn lemma_shortest_shadow(entries: PathEntries, n: nat, j: int, way: Seq<Seq<char>>) -> (first:
    int)
    requires
        0 <= j < n <= entries.len(),
        starts_short(entries[j].0, way),
    ensures
        0 <= first < n,
        starts_short(entries[first].0, way),
        !shadowed(entries, n, first),
    decreases entries[j].0.len(),
{
    if !shadowed(entries, n, j) {
        j
    } else {
        let k = choose|k: int|
            0 <= k < n && k < entries.len() && starts_short((#[trigger] entries[k]).0, entries[j].0);
        assert(starts_short(entries[k].0, way)) by {
            assert(way.take(entries[k].0.len() as int) =~= way.take(entries[j].0.len() as int).take(
                entries[k].0.len() as int,
            ));
        }
        lemma_shortest_shadow(entries, n, k, way)
    }
}

/// The start of a start is a start.
pub proof fn lemma_starts_short_trans(a: Seq<Seq<char>>, b: Seq<Seq<char>>, c: Seq<Seq<char>>)
    requires
        starts_short(a, b),
        starts(b, c),
    ensures
        starts_short(a, c),
{
    assert(c.take(a.len() as int) =~= c.take(b.len() as int).take(a.len() as int));
}

/// An entry that is shadowed among fewer entries is shadowed among more.
pub proof fn lemma_shadow_grows(entries: PathEntries, m: nat, n: nat, i: int)
    requires
        m <= n,
        shadowed(entries, m, i),
    ensures
        shadowed(entries, n, i),
{
    let j = choose|j: int|
        0 <= j < m && j < entries.len() && starts_short((#[trigger] entries[j]).0, entries[i].0);
    assert(0 <= j < n && starts_short(entries[j].0, entries[i].0));
}

/// An entry that is shadowed among the first `n` entries and not among the
/// first `n - 1` is shadowed by the last of them.
pub proof fn lemma_shadow_by_last(entries: PathEntries, n: nat, i: int)
    requires
        1 <= n <= entries.len(),
        shadowed(entries, n, i),
        !shadowed(entries, (n - 1) as nat, i),
    ensures
        starts_short(entries[n - 1].0, entries[i].0),
{
    let j = choose|j: int|
        0 <= j < n && j < entries.len() && starts_short((#[trigger] entries[j]).0, entries[i].0);
    if j < n - 1 {
        assert(shadowed(entries, (n - 1) as nat, i));
    }
}

/// One more entry, on a blocked way, leaves what was built as it is.
pub proof fn lemma_step_blocked(
    entries: PathEntries,
    n: nat,
    before: Seq<(Seq<char>, Tree)>,
)
    requires
        1 <= n <= entries.len(),
        rebuilt(entries, (n - 1) as nat, before),
        blocked(before, entries[n - 1].0),
    ensures
        rebuilt(entries, n, before),
{
    let m = (n - 1) as nat;
    let way = entries[n - 1].0;
    let at = lemma_blocked_gives_text(before, way);
    let start = way.take(at);
    let owner = lemma_owner(entries, m, before, start);
    assert(starts_short(entries[owner].0, way)) by {
        assert(way.take(start.len() as int) =~= start);
    }
    assert(shadowed(entries, n, n - 1));
    assert(texts_present(entries, n, before)) by {
        reveal(texts_present);
        assert forall|i: int| 0 <= i < n && !shadowed(entries, n, i) implies text_in(
            before,
            (#[trigger] entries[i]).0,
        ) == Some(entries[i].1) by {
            assert(i < m);
            if shadowed(entries, m, i) {
                lemma_shadow_grows(entries, m, n, i);
            }
        }
    }
    assert(texts_owned(entries, n, before)) by {
        assert forall|other: Seq<Seq<char>>| #[trigger]
            text_in(before, other) is Some implies exists|i: int|
            0 <= i < n && (#[trigger] entries[i]).0 == other && !shadowed(entries, n, i) by {
            let i = lemma_owner(entries, m, before, other);
            if shadowed(entries, n, i) {
                lemma_shadow_by_last(entries, n, i);
                lemma_starts_short_trans(entries[owner].0, way, other);
                assert(shadowed(entries, m, i));
            }
        }
        reveal(texts_owned);
    }
}

/// After one more entry on a way that is not blocked, an entry that is not
/// shadowed has its text.
pub proof fn lemma_open_present(
    entries: PathEntries,
    n: nat,
    before: Seq<(Seq<char>, Tree)>,
    i: int,
)
    requires
        1 <= n <= entries.len(),
        distinct_paths(entries),
        entries[n - 1].0.len() >= 1,
        Tree::Object(before).unique_keys(),
        texts_present(entries, (n - 1) as nat, before),
        !blocked(before, entries[n - 1].0),
        0 <= i < n,
        !shadowed(entries, n, i),
    ensures
        text_in(insert_path(before, entries[n - 1].0, entries[n - 1].1), entries[i].0) == Some(
            entries[i].1,
        ),
{
    let m = (n - 1) as nat;
    let way = entries[n - 1].0;
    lemma_insert_texts(before, way, entries[n - 1].1, entries[i].0);
    if i < m {
        assert(entries[i].0 != entries[n - 1].0);
        if starts(way, entries[i].0) {
            if way.len() == entries[i].0.len() {
                assert(entries[i].0.take(way.len() as int) =~= entries[i].0);
            }
            assert(starts_short(entries[n - 1].0, entries[i].0));
            assert(shadowed(entries, n, i));
        }
        if shadowed(entries, m, i) {
            lemma_shadow_grows(entries, m, n, i);
        }
        lemma_present(entries, m, before, i);
    }
}

/// After one more entry on a way that is not blocked, every text belongs
/// to an entry that is not shadowed.
pub proof fn lemma_open_owned(
    entries: PathEntries,
    n: nat,
    before: Seq<(Seq<char>, Tree)>,
    other: Seq<Seq<char>>,
) -> (i: int)
    requires
        1 <= n <= entries.len(),
        entries[n - 1].0.len() >= 1,
        Tree::Object(before).unique_keys(),
        texts_present(entries, (n - 1) as nat, before),
        texts_owned(entries, (n - 1) as nat, before),
        !blocked(before, entries[n - 1].0),
        text_in(insert_path(before, entries[n - 1].0, entries[n - 1].1), other) is Some,
    ensures
        0 <= i < n,
        entries[i].0 == other,
        !shadowed(entries, n, i),
{
    let m = (n - 1) as nat;
    let way = entries[n - 1].0;
    lemma_insert_texts(before, way, entries[n - 1].1, other);
    if other == way {
        if shadowed(entries, n, n - 1) {
            let j = choose|j: int|
                0 <= j < n && j < entries.len() && starts_short((#[trigger] entries[j]).0, way);
            assert(j < m);
            let first = lemma_shortest_shadow(entries, m, j, way);
            lemma_present(entries, m, before, first);
            assert(way.take(entries[first].0.len() as int) == entries[first].0);
            lemma_text_blocks(before, way, entries[first].0.len() as int);
        }
        n - 1
    } else {
        let i = lemma_owner(entries, m, before, other);
        if shadowed(entries, n, i) {
            lemma_shadow_by_last(entries, n, i);
            assert(starts(way, other));
        }
        i
    }
}

/// One more entry, on a way that is not blocked, adds its text and takes
/// away what was below it.
pub proof fn lemma_step_open(entries: PathEntries, n: nat, before: Seq<(Seq<char>, Tree)>)
    requires
        1 <= n <= entries.len(),
        distinct_paths(entries),
        entries[n - 1].0.len() >= 1,
        rebuilt(entries, (n - 1) as nat, before),
        !blocked(before, entries[n - 1].0),
    ensures
        rebuilt(entries, n, insert_path(before, entries[n - 1].0, entries[n - 1].1)),
{
    let after = insert_path(before, entries[n - 1].0, entries[n - 1].1);
    lemma_insert_unique(before, entries[n - 1].0, entries[n - 1].1);
    assert(texts_present(entries, n, after)) by {
        assert forall|i: int| 0 <= i < n && !shadowed(entries, n, i) implies text_in(
            after,
            (#[trigger] entries[i]).0,
        ) == Some(entries[i].1) by {
            lemma_open_present(entries, n, before, i);
        }
        reveal(texts_present);
    }
    assert(texts_owned(entries, n, after)) by {
        assert forall|other: Seq<Seq<char>>| #[trigger]
            text_in(after, other) is Some implies exists|i: int|
            0 <= i < n && (#[trigger] entries[i]).0 == other && !shadowed(entries, n, i) by {
            let i = lemma_open_owned(entries, n, before, other);
        }
        reveal(texts_owned);
    }
}

/// The members built from entries with distinct ways hold the texts of the
/// entries that are not shadowed, each at the end of its way, and no other
/// text.
pub proof fn lemma_build_texts(entries: PathEntries, n: nat)
    requires
        n <= entries.len(),
        distinct_paths(entries),
        forall|i: int| 0 <= i < entries.len() ==> (#[trigger] entries[i]).0.len() >= 1,
    ensures
        rebuilt(entries, n, build(Seq::empty(), entries, n)),
    decreases n,
{
    let none = Seq::<(Seq<char>, Tree)>::empty();
    if n == 0 {
        assert(member_keys(none) =~= Seq::<Seq<char>>::empty());
        assert forall|way: Seq<Seq<char>>| text_in(none, way) is None by {}
        reveal(texts_present);
        reveal(texts_owned);
    } else {
        let m = (n - 1) as nat;
        lemma_build_texts(entries, m);
        let before = build(none, entries, m);
        let way = entries[n - 1].0;
        if blocked(before, way) {
            lemma_insert_blocked(before, way, entries[n - 1].1);
            lemma_step_blocked(entries, n, before);
        } else {
            lemma_step_open(entries, n, before);
        }
    }
}

/// Entries with distinct keys have distinct ways, none of them empty.
pub proof fn lemma_distinct_ways(entries: Flat)
    requires
        flat_keys(entries).no_duplicates(),
    ensures
        distinct_paths(paths_of(entries)),
        forall|i: int| 0 <= i < entries.len() ==> (#[trigger] paths_of(entries)[i]).0.len() >= 1,
{
    let ways = paths_of(entries);
    assert forall|i: int, j: int|
        0 <= i < ways.len() && 0 <= j < ways.len() && i != j implies (#[trigger] ways[i]).0 != (
        #[trigger] ways[j]).0 by {
        lemma_join_split(entries[i].0, '.');
        lemma_join_split(entries[j].0, '.');
        assert(flat_keys(entries)[i] != flat_keys(entries)[j]);
    }
    assert forall|i: int| 0 <= i < entries.len() implies (#[trigger] ways[i]).0.len() >= 1 by {
        lemma_split_nonempty(entries[i].0, '.');
    }
}

/// The key of entry `i` is shadowed: another key of the entries, split on
/// dots, is a shorter start of it.
pub open spec fn key_shadowed(entries: Flat, i: int) -> bool {
    shadowed(paths_of(entries), entries.len(), i)
}

/// What a rebuilt tree holds at the end of the way of one key: the key's
/// text, or nothing where the key is shadowed.
pub proof fn lemma_unflatten_text_at(entries: Flat, i: int)
    requires
        flat_keys(entries).no_duplicates(),
        0 <= i < entries.len(),
    ensures
        text_at(unflatten_tree(entries), split_on(entries[i].0, '.')) == if key_shadowed(
            entries,
            i,
        ) {
            None
        } else {
            Some(entries[i].1)
        },
{
    let ways = paths_of(entries);
    let n = entries.len();
    let members = unflatten_tree(entries).members();
    lemma_distinct_ways(entries);
    lemma_unflatten_is_build(entries, n);
    lemma_build_texts(ways, n);
    let way = ways[i].0;
    assert(way == split_on(entries[i].0, '.'));
    if key_shadowed(entries, i) {
        if text_in(members, way) is Some {
            let j = lemma_owner(ways, n, members, way);
            assert(ways[j].0 == ways[i].0);
            assert(j == i);
        }
    } else {
        lemma_present(ways, n, members, i);
    }
}

/// The key to which a text of a rebuilt tree belongs.
pub proof fn lemma_unflatten_text_owner(entries: Flat, way: Seq<Seq<char>>) -> (i: int)
    requires
        flat_keys(entries).no_duplicates(),
        text_at(unflatten_tree(entries), way) is Some,
    ensures
        0 <= i < entries.len(),
        split_on(entries[i].0, '.') == way,
        !key_shadowed(entries, i),
{
    let ways = paths_of(entries);
    let n = entries.len();
    let members = unflatten_tree(entries).members();
    lemma_distinct_ways(entries);
    lemma_unflatten_is_build(entries, n);
    lemma_build_texts(ways, n);
    let i = lemma_owner(ways, n, members, way);
    assert(split_on(entries[i].0, '.') == ways[i].0);
    i
}

/// What a rebuilt tree holds, whatever the order of the keys: for every key
/// that is not shadowed its text, at the end of the way that the key's
/// pieces name; nothing at the end of the way of a shadowed key; and no
/// text that is not a key's. The tree has texts and objects alone, and no
/// key occurs twice in any of its objects.
pub proof fn lemma_unflatten_texts(entries: Flat)
    requires
        flat_keys(entries).no_duplicates(),
    ensures
        forall|i: int|
            0 <= i < entries.len() ==> text_at(
                unflatten_tree(entries),
                split_on((#[trigger] entries[i]).0, '.'),
            ) == if key_shadowed(entries, i) {
                None
            } else {
                Some(entries[i].1)
            },
        forall|way: Seq<Seq<char>>| #[trigger]
            text_at(unflatten_tree(entries), way) is Some ==> exists|i: int|
                0 <= i < entries.len() && split_on((#[trigger] entries[i]).0, '.') == way
                    && !key_shadowed(entries, i),
        unflatten_tree(entries).unique_keys(),
        textual(unflatten_tree(entries).members()),
{
    let n = entries.len();
    lemma_distinct_ways(entries);
    lemma_unflatten_is_build(entries, n);
    lemma_build_texts(paths_of(entries), n);
    assert forall|way: Seq<Seq<char>>| #[trigger]
        text_at(unflatten_tree(entries), way) is Some implies exists|i: int|
        0 <= i < entries.len() && split_on((#[trigger] entries[i]).0, '.') == way && !key_shadowed(
            entries,
            i,
        ) by {
        let i = lemma_unflatten_text_owner(entries, way);
    }
    assert forall|i: int| 0 <= i < entries.len() implies text_at(
        unflatten_tree(entries),
        split_on((#[trigger] entries[i]).0, '.'),
    ) == if key_shadowed(entries, i) {
        None
    } else {
        Some(entries[i].1)
    } by {
        lemma_unflatten_text_at(entries, i);
    }
}

/// Among entries with distinct keys, each key stands for its own text.
pub proof fn lemma_flat_map_at(entries: Flat, i: int)
    requires
        flat_keys(entries).no_duplicates(),
        0 <= i < entries.len(),
    ensures
        flat_map(entries).contains_key(entries[i].0),
        flat_map(entries)[entries[i].0] == entries[i].1,
    decreases entries.len(),
{
    if i < entries.len() - 1 {
        let rest = entries.drop_last();
        assert(flat_keys(rest) =~= flat_keys(entries).drop_last());
        lemma_flat_map_at(rest, i);
        assert(flat_keys(entries)[i] != flat_keys(entries)[entries.len() - 1]);
    }
}

/// The key `key` is shadowed in `map`: another key of the map, split on
/// dots, is a shorter start of it.
pub open spec fn shadowed_key(map: Map<Seq<char>, Seq<char>>, key: Seq<char>) -> bool {
    exists|other: Seq<char>| #[trigger]
        map.contains_key(other) && starts_short(split_on(other, '.'), split_on(key, '.'))
}

/// The map of a merge: the keys of the old tree and of the updates
/// together, the updates' text where both hold a key.
pub proof fn lemma_merged_map(original: Tree, updates: Flat)
    ensures
        ({
            let flat = flatten_tree(original, Seq::empty());
            let merged = overlay(flat, updates, updates.len());
            &&& flat_keys(merged).no_duplicates()
            &&& flat_map(merged) == flat_map(flat).union_prefer_right(flat_map(updates))
            &&& merge_tree(original, updates) == unflatten_tree(merged)
        }),
{
    let flat = flatten_tree(original, Seq::empty());
    crate::flatten_laws::lemma_flatten_keeps_text_leaves(original, Seq::empty());
    crate::flatten_laws::lemma_overlay_map(flat, updates, updates.len());
    assert(updates.take(updates.len() as int) =~= updates);
}

/// The place of a key among entries that hold it.
pub proof fn lemma_key_index(entries: Flat, key: Seq<char>) -> (i: int)
    requires
        flat_map(entries).contains_key(key),
    ensures
        0 <= i < entries.len(),
        entries[i].0 == key,
{
    lemma_flat_map_keys(entries);
    assert(flat_keys(entries).contains(key));
    let i = flat_keys(entries).index_of(key);
    assert(flat_keys(entries)[i] == key);
    i
}

/// What a merged tree holds: at the end of the way that a key's pieces
/// name, the text of the updates where the updates hold the key, else the
/// text that the old tree had under it, for every key of the two that is
/// not shadowed by another. Keys of the old tree that the updates do not
/// hold keep their texts and their places.
pub proof fn lemma_merge_texts(original: Tree, updates: Flat, key: Seq<char>)
    requires
        ({
            let before = flat_map(flatten_tree(original, Seq::empty()));
            let union = before.union_prefer_right(flat_map(updates));
            union.contains_key(key) && !shadowed_key(union, key)
        }),
    ensures
        ({
            let before = flat_map(flatten_tree(original, Seq::empty()));
            let after = flat_map(updates);
            text_at(merge_tree(original, updates), split_on(key, '.')) == Some(
                if after.contains_key(key) {
                    after[key]
                } else {
                    before[key]
                },
            )
        }),
{
    let flat = flatten_tree(original, Seq::empty());
    let merged = overlay(flat, updates, updates.len());
    let union = flat_map(flat).union_prefer_right(flat_map(updates));
    lemma_merged_map(original, updates);
    let i = lemma_key_index(merged, key);
    lemma_flat_map_at(merged, i);
    lemma_unflatten_text_at(merged, i);
    if key_shadowed(merged, i) {
        let ways = paths_of(merged);
        let j = choose|j: int|
            0 <= j < merged.len() && j < ways.len() && starts_short((#[trigger] ways[j]).0, ways[i].0);
        lemma_flat_map_at(merged, j);
        assert(ways[j].0 == split_on(merged[j].0, '.'));
        assert(ways[i].0 == split_on(key, '.'));
        assert(union.contains_key(merged[j].0));
        assert(shadowed_key(union, key));
    }
}

} // verus!
