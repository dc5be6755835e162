//! What holds of the rows of a configuration and of the batches they come in.

use vstd::prelude::*;

use crate::config_scan::{ScanAction, ScanState};
use crate::json_tree::{
    distinct_keys, flatten, flatten_members, keys_differ, member_key, plain_key, plain_keys,
    JsonShape,
};

verus! {

/// How many values in `shape` are no objects.
pub open spec fn leaf_count(shape: JsonShape) -> nat
    decreases shape,
{
    match shape {
        JsonShape::Leaf(_) => 1,
        JsonShape::Object(members) => leaf_count_of_members(members),
    }
}

/// How many values in `members` are no objects.
pub open spec fn leaf_count_of_members(members: Seq<(Seq<char>, JsonShape)>) -> nat
    decreases members,
{
    if members.len() == 0 {
        0
    } else {
        leaf_count_of_members(members.drop_last()) + leaf_count(members[members.len() - 1].1)
    }
}

/// There is one row for each value that is no object.
pub proof fn law_one_row_per_leaf(shape: JsonShape, parent: Seq<char>)
    ensures
        flatten(shape, parent).len() == leaf_count(shape),
    decreases shape,
{
    if let JsonShape::Object(members) = shape {
        lemma_one_row_per_leaf_of_members(members, parent);
    }
}

proof fn lemma_one_row_per_leaf_of_members(
    members: Seq<(Seq<char>, JsonShape)>,
    parent: Seq<char>,
)
    ensures
        flatten_members(members, parent).len() == leaf_count_of_members(members),
    decreases members,
{
    if members.len() > 0 {
        let last = members[members.len() - 1];
        lemma_one_row_per_leaf_of_members(members.drop_last(), parent);
        law_one_row_per_leaf(last.1, member_key(parent, last.0));
    }
}

/// The rows with `prefix` and a dot before each key.
pub open spec fn prefixed(
    prefix: Seq<char>,
    rows: Seq<(Seq<char>, Seq<char>)>,
) -> Seq<(Seq<char>, Seq<char>)> {
    rows.map_values(|row: (Seq<char>, Seq<char>)| (prefix + seq!['.'] + row.0, row.1))
}

/// A value deeper down has the rows that it has by itself, with the key of the
/// object around it before each key.
pub proof fn law_keys_are_paths(shape: JsonShape, prefix: Seq<char>, key: Seq<char>)
    requires
        prefix.len() > 0,
        key.len() > 0,
    ensures
        flatten(shape, member_key(prefix, key)) == prefixed(prefix, flatten(shape, key)),
    decreases shape,
{
    match shape {
        JsonShape::Leaf(text) => {
            assert(flatten(shape, member_key(prefix, key)) =~= prefixed(
                prefix,
                flatten(shape, key),
            ));
        },
        JsonShape::Object(members) => {
            lemma_keys_of_members_are_paths(members, prefix, key);
        },
    }
}

proof fn lemma_keys_of_members_are_paths(
    members: Seq<(Seq<char>, JsonShape)>,
    prefix: Seq<char>,
    key: Seq<char>,
)
    requires
        prefix.len() > 0,
        key.len() > 0,
    ensures
        flatten_members(members, member_key(prefix, key)) == prefixed(
            prefix,
            flatten_members(members, key),
        ),
    decreases members,
{
    if members.len() > 0 {
        let last = members[members.len() - 1];
        lemma_keys_of_members_are_paths(members.drop_last(), prefix, key);
        law_keys_are_paths(last.1, prefix, member_key(key, last.0));
        assert(member_key(member_key(prefix, key), last.0) =~= member_key(
            prefix,
            member_key(key, last.0),
        ));
    }
    assert(flatten_members(members, member_key(prefix, key)) =~= prefixed(
        prefix,
        flatten_members(members, key),
    ));
}

/// A value that is no object is one row: its own key, and its text as it is.
pub proof fn law_leaf_is_one_row(text: Seq<char>, parent: Seq<char>)
    ensures
        flatten(JsonShape::Leaf(text), parent).len() == 1,
        flatten(JsonShape::Leaf(text), parent)[0].0 == parent,
        flatten(JsonShape::Leaf(text), parent)[0].1 == text,
{
}

/// An object without members has no rows.
pub proof fn law_empty_object_has_no_rows(parent: Seq<char>)
    ensures
        flatten(JsonShape::Object(Seq::empty()), parent).len() == 0,
{
    assert(JsonShape::Object(Seq::empty())->Object_0 == Seq::<(Seq<char>, JsonShape)>::empty());
}

/// The rows of members follow each other in the order of the members: the rows of
/// an object with two groups of members are those of the one and then those of
/// the other.
pub proof fn law_members_follow_each_other(
    front: Seq<(Seq<char>, JsonShape)>,
    back: Seq<(Seq<char>, JsonShape)>,
    parent: Seq<char>,
)
    ensures
        flatten(JsonShape::Object(front + back), parent) == flatten(
            JsonShape::Object(front),
            parent,
        ) + flatten(JsonShape::Object(back), parent),
    decreases back.len(),
{
    let all = front + back;
    assert(JsonShape::Object(all)->Object_0 == all);
    assert(JsonShape::Object(front)->Object_0 == front);
    assert(JsonShape::Object(back)->Object_0 == back);
    if back.len() == 0 {
        assert(all =~= front);
        assert(flatten_members(front, parent) + flatten_members(back, parent) =~= flatten_members(
            front,
            parent,
        ));
    } else {
        let shorter = back.drop_last();
        law_members_follow_each_other(front, shorter, parent);
        assert(JsonShape::Object(front + shorter)->Object_0 == front + shorter);
        assert(JsonShape::Object(shorter)->Object_0 == shorter);
        assert(all.drop_last() =~= front + shorter);
        assert(all[all.len() - 1] == back[back.len() - 1]);
        let last = flatten(
            back[back.len() - 1].1,
            member_key(parent, back[back.len() - 1].0),
        );
        assert((flatten_members(front, parent) + flatten_members(shorter, parent)) + last
            =~= flatten_members(front, parent) + (flatten_members(shorter, parent) + last));
    }
}

/// A member of the outermost object has the rows that its value has under the
/// member's own key. Any other member's value has them under the key of its
/// object, a dot and the member's key.
pub proof fn law_member_is_named_after_its_object(
    key: Seq<char>,
    shape: JsonShape,
    parent: Seq<char>,
)
    ensures
        parent.len() == 0 ==> flatten(JsonShape::Object(seq![(key, shape)]), parent) == flatten(
            shape,
            key,
        ),
        parent.len() > 0 ==> flatten(JsonShape::Object(seq![(key, shape)]), parent) == flatten(
            shape,
            parent + seq!['.'] + key,
        ),
{
    let members = seq![(key, shape)];
    assert(JsonShape::Object(members)->Object_0 == members);
    assert(members.drop_last() =~= Seq::empty());
    assert(flatten_members(members.drop_last(), parent) =~= Seq::empty());
    assert(flatten_members(members, parent) =~= flatten(shape, member_key(parent, key)));
}

/// The texts of the values in `shape` that are no objects, in order.
pub open spec fn leaf_texts(shape: JsonShape) -> Seq<Seq<char>>
    decreases shape,
{
    match shape {
        JsonShape::Leaf(text) => seq![text],
        JsonShape::Object(members) => leaf_texts_of_members(members),
    }
}

/// The texts of the values in `members` that are no objects, in order.
pub open spec fn leaf_texts_of_members(members: Seq<(Seq<char>, JsonShape)>) -> Seq<Seq<char>>
    decreases members,
{
    if members.len() == 0 {
        Seq::empty()
    } else {
        leaf_texts_of_members(members.drop_last()) + leaf_texts(members[members.len() - 1].1)
    }
}

/// The values of the rows are the texts of the values that are no objects, in
/// order and unchanged, whatever the keys are.
pub proof fn law_rows_hold_leaf_texts(shape: JsonShape, parent: Seq<char>)
    ensures
        flatten(shape, parent).len() == leaf_texts(shape).len(),
        forall|i: int|
            0 <= i < leaf_texts(shape).len() ==> (#[trigger] flatten(shape, parent)[i]).1
                == leaf_texts(shape)[i],
    decreases shape,
{
    if let JsonShape::Object(members) = shape {
        lemma_rows_of_members_hold_leaf_texts(members, parent);
    }
}

proof fn lemma_rows_of_members_hold_leaf_texts(
    members: Seq<(Seq<char>, JsonShape)>,
    parent: Seq<char>,
)
    ensures
        flatten_members(members, parent).len() == leaf_texts_of_members(members).len(),
        forall|i: int|
            0 <= i < leaf_texts_of_members(members).len() ==> (#[trigger] flatten_members(
                members,
                parent,
            )[i]).1 == leaf_texts_of_members(members)[i],
    decreases members,
{
    if members.len() > 0 {
        let last = members[members.len() - 1];
        let rows = flatten_members(members.drop_last(), parent);
        lemma_rows_of_members_hold_leaf_texts(members.drop_last(), parent);
        law_rows_hold_leaf_texts(last.1, member_key(parent, last.0));
        assert forall|i: int| 0 <= i < leaf_texts_of_members(members).len() implies (
        #[trigger] flatten_members(members, parent)[i]).1 == leaf_texts_of_members(
            members,
        )[i] by {
            if i < rows.len() {
                assert(flatten_members(members, parent)[i] == rows[i]);
            } else {
                assert(flatten_members(members, parent)[i] == flatten(
                    last.1,
                    member_key(parent, last.0),
                )[i - rows.len()]);
            }
        }
    }
}

/// The same value has the same texts under every key.
pub proof fn law_texts_do_not_depend_on_keys(
    shape: JsonShape,
    parent: Seq<char>,
    other: Seq<char>,
)
    ensures
        flatten(shape, parent).len() == flatten(shape, other).len(),
        forall|i: int|
            0 <= i < flatten(shape, parent).len() ==> (#[trigger] flatten(shape, parent)[i]).1
                == flatten(shape, other)[i].1,
{
    law_rows_hold_leaf_texts(shape, parent);
    law_rows_hold_leaf_texts(shape, other);
    assert forall|i: int| 0 <= i < flatten(shape, parent).len() implies (#[trigger] flatten(
        shape,
        parent,
    )[i]).1 == flatten(shape, other)[i].1 by {
        assert(flatten(shape, other)[i].1 == leaf_texts(shape)[i]);
    }
}

/// The keys that lead to each value in `shape` that is no object, in order.
pub open spec fn leaf_paths(shape: JsonShape) -> Seq<Seq<Seq<char>>>
    decreases shape,
{
    match shape {
        JsonShape::Leaf(_) => seq![Seq::empty()],
        JsonShape::Object(members) => leaf_paths_of_members(members),
    }
}

/// The keys that lead to each value in `members` that is no object, in order.
pub open spec fn leaf_paths_of_members(members: Seq<(Seq<char>, JsonShape)>) -> Seq<
    Seq<Seq<char>>,
>
    decreases members,
{
    if members.len() == 0 {
        Seq::empty()
    } else {
        leaf_paths_of_members(members.drop_last()) + below(
            members[members.len() - 1].0,
            leaf_paths(members[members.len() - 1].1),
        )
    }
}

/// The paths with `key` before each of them.
pub open spec fn below(key: Seq<char>, paths: Seq<Seq<Seq<char>>>) -> Seq<Seq<Seq<char>>> {
    paths.map_values(|path: Seq<Seq<char>>| seq![key] + path)
}

/// The key of the value that `path` leads to from a value whose key is `parent`.
pub open spec fn path_key(parent: Seq<char>, path: Seq<Seq<char>>) -> Seq<char>
    decreases path.len(),
{
    if path.len() == 0 {
        parent
    } else {
        path_key(member_key(parent, path[0]), path.drop_first())
    }
}

/// All keys of `path` are plain.
pub open spec fn plain_path(path: Seq<Seq<char>>) -> bool {
    forall|i: int| 0 <= i < path.len() ==> plain_key(#[trigger] path[i])
}

/// The key of each row is spelled from the keys that lead to its value.
pub proof fn law_keys_spell_paths(shape: JsonShape, parent: Seq<char>)
    ensures
        flatten(shape, parent).len() == leaf_paths(shape).len(),
        forall|i: int|
            0 <= i < leaf_paths(shape).len() ==> (#[trigger] flatten(shape, parent)[i]).0
                == path_key(parent, leaf_paths(shape)[i]),
    decreases shape,
{
    if let JsonShape::Object(members) = shape {
        lemma_keys_of_members_spell_paths(members, parent);
    }
}

proof fn lemma_keys_of_members_spell_paths(
    members: Seq<(Seq<char>, JsonShape)>,
    parent: Seq<char>,
)
    ensures
        flatten_members(members, parent).len() == leaf_paths_of_members(members).len(),
        forall|i: int|
            0 <= i < leaf_paths_of_members(members).len() ==> (#[trigger] flatten_members(
                members,
                parent,
            )[i]).0 == path_key(parent, leaf_paths_of_members(members)[i]),
    decreases members,
{
    if members.len() > 0 {
        let last = members[members.len() - 1];
        let rows = flatten_members(members.drop_last(), parent);
        lemma_keys_of_members_spell_paths(members.drop_last(), parent);
        law_keys_spell_paths(last.1, member_key(parent, last.0));
        assert forall|i: int| 0 <= i < leaf_paths_of_members(members).len() implies (
        #[trigger] flatten_members(members, parent)[i]).0 == path_key(
            parent,
            leaf_paths_of_members(members)[i],
        ) by {
            if i < rows.len() {
                assert(flatten_members(members, parent)[i] == rows[i]);
            } else {
                let j = i - rows.len();
                let path = leaf_paths(last.1)[j];
                assert(leaf_paths_of_members(members)[i] == seq![last.0] + path);
                assert((seq![last.0] + path).drop_first() =~= path);
                assert(flatten_members(members, parent)[i] == flatten(
                    last.1,
                    member_key(parent, last.0),
                )[j]);
            }
        }
    }
}

/// The texts one after the other, with a dot between each two.
pub open spec fn joined(texts: Seq<Seq<char>>) -> Seq<char>
    decreases texts.len(),
{
    if texts.len() == 0 {
        Seq::empty()
    } else if texts.len() == 1 {
        texts[0]
    } else {
        texts[0] + seq!['.'] + joined(texts.skip(1))
    }
}

/// One text is joined to itself, and what is joined from two groups of texts is
/// what is joined from each, with a dot in between.
pub proof fn law_joined_with_dots(text: Seq<char>, front: Seq<Seq<char>>, back: Seq<Seq<char>>)
    ensures
        joined(seq![text]) == text,
        front.len() > 0 && back.len() > 0 ==> joined(front + back) == joined(front) + seq!['.']
            + joined(back),
    decreases front.len(),
{
    if front.len() > 0 && back.len() > 0 {
        let all = front + back;
        if front.len() == 1 {
            assert(all.skip(1) =~= back);
        } else {
            law_joined_with_dots(text, front.skip(1), back);
            assert(all.skip(1) =~= front.skip(1) + back);
            assert(joined(all) =~= joined(front) + seq!['.'] + joined(back));
        }
    }
}

/// From a value with a key, a path leads to that key and the keys of the path,
/// joined with dots.
pub proof fn law_path_below_key_is_joined(parent: Seq<char>, path: Seq<Seq<char>>)
    requires
        parent.len() > 0,
    ensures
        path_key(parent, path) == joined(seq![parent] + path),
    decreases path.len(),
{
    let texts = seq![parent] + path;
    if path.len() == 0 {
        assert(texts =~= seq![parent]);
    } else {
        let next = parent + seq!['.'] + path[0];
        let rest = path.drop_first();
        law_path_below_key_is_joined(next, rest);
        assert(texts.skip(1) =~= path);
        if rest.len() == 0 {
            assert(seq![next] + rest =~= seq![next]);
            assert(joined(path) == path[0]);
            assert(joined(texts) =~= next);
        } else {
            assert((seq![next] + rest).skip(1) =~= rest);
            assert(path.skip(1) =~= rest);
            assert(joined(path) == path[0] + seq!['.'] + joined(rest));
            assert(joined(texts) =~= next + seq!['.'] + joined(rest));
        }
    }
}

/// From the outermost value, a path leads to its keys joined with dots, without
/// the empty keys that it may begin with. A path of one key leads to that key.
pub proof fn law_path_from_outside_is_joined(path: Seq<Seq<char>>, empty: nat)
    requires
        empty <= path.len(),
        forall|i: int| 0 <= i < empty ==> (#[trigger] path[i]).len() == 0,
        empty < path.len() ==> path[empty as int].len() > 0,
    ensures
        path_key(Seq::empty(), path) == joined(path.skip(empty as int)),
        path.len() == 1 ==> path_key(Seq::empty(), path) == path[0],
    decreases path.len(),
{
    if path.len() == 0 {
        assert(path.skip(0) =~= Seq::empty());
    } else {
        let rest = path.drop_first();
        assert(member_key(Seq::empty(), path[0]) == path[0]);
        if empty == 0 {
            law_path_below_key_is_joined(path[0], rest);
            assert(seq![path[0]] + rest =~= path.skip(0));
        } else {
            assert(path[0] =~= Seq::empty());
            assert forall|i: int| 0 <= i < empty - 1 implies (#[trigger] rest[i]).len() == 0 by {
                assert(path[i + 1].len() == 0);
            }
            law_path_from_outside_is_joined(rest, (empty - 1) as nat);
            assert(rest.skip(empty - 1) =~= path.skip(empty as int));
            if path.len() == 1 {
                assert(rest =~= Seq::empty());
            }
        }
    }
}

/// The key of each row is the keys that lead to its value, joined with dots. Where
/// the value with the rows has a key itself, that comes first. From the outermost
/// value, the first key on the path comes first; empty keys before it do not
/// count.
pub proof fn law_keys_are_joined_paths(shape: JsonShape, parent: Seq<char>, i: int, empty: nat)
    requires
        0 <= i < leaf_paths(shape).len(),
        empty <= leaf_paths(shape)[i].len(),
        forall|j: int| 0 <= j < empty ==> (#[trigger] leaf_paths(shape)[i][j]).len() == 0,
        empty < leaf_paths(shape)[i].len() ==> leaf_paths(shape)[i][empty as int].len() > 0,
    ensures
        flatten(shape, parent).len() == leaf_paths(shape).len(),
        parent.len() > 0 ==> flatten(shape, parent)[i].0 == joined(
            seq![parent] + leaf_paths(shape)[i],
        ),
        parent.len() == 0 ==> flatten(shape, parent)[i].0 == joined(
            leaf_paths(shape)[i].skip(empty as int),
        ),
{
    law_keys_spell_paths(shape, parent);
    assert(flatten(shape, parent)[i].0 == path_key(parent, leaf_paths(shape)[i]));
    if parent.len() > 0 {
        law_path_below_key_is_joined(parent, leaf_paths(shape)[i]);
    } else {
        assert(parent =~= Seq::empty());
        law_path_from_outside_is_joined(leaf_paths(shape)[i], empty);
    }
}

/// The leaves of a value by itself: one, with its own text, that no key leads to.
/// The leaves of a member: those of its value, each behind the member's key.
pub proof fn law_leaves_of_a_member(text: Seq<char>, key: Seq<char>, shape: JsonShape)
    ensures
        leaf_texts(JsonShape::Leaf(text)) == seq![text],
        leaf_paths(JsonShape::Leaf(text)) == seq![Seq::<Seq<char>>::empty()],
        leaf_texts(JsonShape::Object(seq![(key, shape)])) == leaf_texts(shape),
        leaf_paths(JsonShape::Object(seq![(key, shape)])).len() == leaf_paths(shape).len(),
        forall|i: int|
            0 <= i < leaf_paths(shape).len() ==> #[trigger] leaf_paths(
                JsonShape::Object(seq![(key, shape)]),
            )[i] == seq![key] + leaf_paths(shape)[i],
{
    let members = seq![(key, shape)];
    assert(JsonShape::Object(members)->Object_0 == members);
    assert(members.drop_last() =~= Seq::empty());
    assert(leaf_texts_of_members(members.drop_last()) =~= Seq::empty());
    assert(leaf_paths_of_members(members.drop_last()) =~= Seq::empty());
    assert(leaf_texts_of_members(members) =~= leaf_texts(shape));
    assert(leaf_paths_of_members(members) =~= below(key, leaf_paths(shape)));
}

/// The leaves of an object with two groups of members are those of the one and
/// then those of the other.
pub proof fn law_leaves_follow_each_other(
    front: Seq<(Seq<char>, JsonShape)>,
    back: Seq<(Seq<char>, JsonShape)>,
)
    ensures
        leaf_texts(JsonShape::Object(front + back)) == leaf_texts(JsonShape::Object(front))
            + leaf_texts(JsonShape::Object(back)),
        leaf_paths(JsonShape::Object(front + back)) == leaf_paths(JsonShape::Object(front))
            + leaf_paths(JsonShape::Object(back)),
    decreases back.len(),
{
    let all = front + back;
    assert(JsonShape::Object(all)->Object_0 == all);
    assert(JsonShape::Object(front)->Object_0 == front);
    assert(JsonShape::Object(back)->Object_0 == back);
    if back.len() == 0 {
        assert(all =~= front);
        assert(leaf_texts_of_members(front) + leaf_texts_of_members(back)
            =~= leaf_texts_of_members(front));
        assert(leaf_paths_of_members(front) + leaf_paths_of_members(back)
            =~= leaf_paths_of_members(front));
    } else {
        let shorter = back.drop_last();
        let last = back[back.len() - 1];
        law_leaves_follow_each_other(front, shorter);
        assert(JsonShape::Object(front + shorter)->Object_0 == front + shorter);
        assert(JsonShape::Object(shorter)->Object_0 == shorter);
        assert(all.drop_last() =~= front + shorter);
        assert(all[all.len() - 1] == last);
        assert((leaf_texts_of_members(front) + leaf_texts_of_members(shorter)) + leaf_texts(last.1)
            =~= leaf_texts_of_members(front) + (leaf_texts_of_members(shorter) + leaf_texts(
            last.1,
        )));
        assert((leaf_paths_of_members(front) + leaf_paths_of_members(shorter)) + below(
            last.0,
            leaf_paths(last.1),
        ) =~= leaf_paths_of_members(front) + (leaf_paths_of_members(shorter) + below(
            last.0,
            leaf_paths(last.1),
        )));
    }
}

/// Different values are reached by different paths, where no object has a key
/// twice.
pub proof fn law_paths_differ(shape: JsonShape)
    requires
        distinct_keys(shape),
    ensures
        leaf_paths(shape).no_duplicates(),
    decreases shape,
{
    if let JsonShape::Object(members) = shape {
        lemma_paths_of_members_differ(members);
    }
}

proof fn lemma_paths_of_members_differ(members: Seq<(Seq<char>, JsonShape)>)
    requires
        distinct_keys(JsonShape::Object(members)),
    ensures
        leaf_paths_of_members(members).no_duplicates(),
        forall|i: int|
            0 <= i < leaf_paths_of_members(members).len() ==> {
                let path = #[trigger] leaf_paths_of_members(members)[i];
                path.len() > 0 && exists|k: int|
                    0 <= k < members.len() && (#[trigger] members[k]).0 == path[0]
            },
    decreases members,
{
    assert(JsonShape::Object(members)->Object_0 == members);
    if members.len() > 0 {
        let shorter = members.drop_last();
        let last = members[members.len() - 1];
        let front = leaf_paths_of_members(shorter);
        let back = below(last.0, leaf_paths(last.1));
        let all = leaf_paths_of_members(members);
        assert forall|i: int, j: int| 0 <= i < j < shorter.len() implies (
        #[trigger] shorter[i]).0 != (#[trigger] shorter[j]).0 by {
            assert(members[i].0 != members[j].0);
        }
        assert forall|i: int| 0 <= i < shorter.len() implies distinct_keys(
            (#[trigger] shorter[i]).1,
        ) by {
            assert(distinct_keys(members[i].1));
        }
        lemma_paths_of_members_differ(shorter);
        law_paths_differ(last.1);
        assert forall|i: int| 0 <= i < all.len() implies {
            let path = #[trigger] all[i];
            path.len() > 0 && exists|k: int|
                0 <= k < members.len() && (#[trigger] members[k]).0 == path[0]
        } by {
            if i < front.len() {
                assert(all[i] == front[i]);
                let k = choose|k: int|
                    0 <= k < shorter.len() && (#[trigger] shorter[k]).0 == front[i][0];
                assert(members[k].0 == all[i][0]);
            } else {
                assert(all[i] == back[i - front.len()]);
                assert(members[members.len() - 1].0 == all[i][0]);
            }
        }
        assert forall|i: int, j: int| 0 <= i < j < all.len() implies all[i] != all[j] by {
            if j < front.len() {
                assert(all[i] == front[i] && all[j] == front[j]);
            } else if i >= front.len() {
                let (a, b) = (i - front.len(), j - front.len());
                let (p, q) = (leaf_paths(last.1)[a], leaf_paths(last.1)[b]);
                assert(p != q);
                assert(all[i] == seq![last.0] + p && all[j] == seq![last.0] + q);
                assert((seq![last.0] + p).drop_first() =~= p);
                assert((seq![last.0] + q).drop_first() =~= q);
            } else {
                assert(all[i] == front[i]);
                let k = choose|k: int|
                    0 <= k < shorter.len() && (#[trigger] shorter[k]).0 == front[i][0];
                assert(members[k].0 != last.0);
                assert(all[j] == back[j - front.len()]);
                assert(all[j][0] == last.0);
            }
        }
    }
}

/// The paths in a value with plain keys are plain.
proof fn lemma_paths_are_plain(shape: JsonShape)
    requires
        plain_keys(shape),
    ensures
        forall|i: int|
            0 <= i < leaf_paths(shape).len() ==> plain_path(#[trigger] leaf_paths(shape)[i]),
    decreases shape,
{
    if let JsonShape::Object(members) = shape {
        lemma_paths_of_members_are_plain(members);
        assert(leaf_paths(shape) == leaf_paths_of_members(members));
    }
}

proof fn lemma_paths_of_members_are_plain(members: Seq<(Seq<char>, JsonShape)>)
    requires
        plain_keys(JsonShape::Object(members)),
    ensures
        forall|i: int|
            0 <= i < leaf_paths_of_members(members).len() ==> plain_path(
                #[trigger] leaf_paths_of_members(members)[i],
            ),
    decreases members,
{
    assert(JsonShape::Object(members)->Object_0 == members);
    if members.len() > 0 {
        let shorter = members.drop_last();
        let last = members[members.len() - 1];
        let front = leaf_paths_of_members(shorter);
        assert forall|i: int| 0 <= i < shorter.len() implies plain_key((#[trigger] shorter[i]).0)
            && plain_keys(shorter[i].1) by {
            assert(plain_key(members[i].0));
        }
        lemma_paths_of_members_are_plain(shorter);
        lemma_paths_are_plain(last.1);
        assert forall|i: int| 0 <= i < leaf_paths_of_members(members).len() implies plain_path(
            #[trigger] leaf_paths_of_members(members)[i],
        ) by {
            let path = leaf_paths_of_members(members)[i];
            if i < front.len() {
                assert(path == front[i]);
            } else {
                let rest = leaf_paths(last.1)[i - front.len()];
                assert(plain_path(rest));
                assert(path == seq![last.0] + rest);
            }
        }
    }
}

/// `key` is `start`, or goes on with a dot after it.
spec fn goes_on(start: Seq<char>, key: Seq<char>) -> bool {
    &&& start.len() <= key.len()
    &&& start =~= key.take(start.len() as int)
    &&& start.len() < key.len() ==> key[start.len() as int] == '.'
}

/// The key of a path goes on from the key of the first value on it.
proof fn lemma_path_goes_on(parent: Seq<char>, path: Seq<Seq<char>>)
    requires
        parent.len() > 0,
    ensures
        goes_on(parent, path_key(parent, path)),
    decreases path.len(),
{
    if path.len() > 0 {
        let next = member_key(parent, path[0]);
        let key = path_key(parent, path);
        lemma_path_goes_on(next, path.drop_first());
        assert(next.len() > parent.len());
        assert(parent =~= key.take(parent.len() as int)) by {
            assert forall|i: int| 0 <= i < parent.len() implies parent[i] == key[i] by {
                assert(next[i] == key.take(next.len() as int)[i]);
            }
        }
        assert(next[parent.len() as int] == key.take(next.len() as int)[parent.len() as int]);
    }
}

/// No key goes on from two plain keys of the same object.
proof fn lemma_one_way_on(parent: Seq<char>, a: Seq<char>, b: Seq<char>, key: Seq<char>)
    requires
        plain_key(a),
        plain_key(b),
        a.len() <= b.len(),
        goes_on(member_key(parent, a), key),
        goes_on(member_key(parent, b), key),
    ensures
        a == b,
{
    let from_a = member_key(parent, a);
    let from_b = member_key(parent, b);
    let start = from_a.len() - a.len();
    assert forall|i: int| 0 <= i < a.len() implies a[i] == b[i] by {
        assert(from_a[start + i] == key.take(from_a.len() as int)[start + i]);
        assert(from_b[start + i] == key.take(from_b.len() as int)[start + i]);
    }
    if a.len() < b.len() {
        assert(from_b[from_a.len() as int] == key.take(from_b.len() as int)[from_a.len() as int]);
        assert(b[a.len() as int] == '.');
    } else {
        assert(a =~= b);
    }
}

/// A key can be read as a path in one way only, where the keys on the path are
/// plain.
pub proof fn law_key_determines_path(parent: Seq<char>, p: Seq<Seq<char>>, q: Seq<Seq<char>>)
    requires
        plain_path(p),
        plain_path(q),
        path_key(parent, p) == path_key(parent, q),
    ensures
        p == q,
    decreases p.len(),
{
    if p.len() > 0 {
        assert(plain_key(p[0]));
        lemma_path_goes_on(member_key(parent, p[0]), p.drop_first());
    }
    if q.len() > 0 {
        assert(plain_key(q[0]));
        lemma_path_goes_on(member_key(parent, q[0]), q.drop_first());
    }
    if p.len() > 0 && q.len() > 0 {
        let key = path_key(parent, p);
        if p[0].len() <= q[0].len() {
            lemma_one_way_on(parent, p[0], q[0], key);
        } else {
            lemma_one_way_on(parent, q[0], p[0], key);
        }
        assert(plain_path(p.drop_first())) by {
            assert forall|i: int| 0 <= i < p.len() - 1 implies plain_key(
                #[trigger] p.drop_first()[i],
            ) by {
                assert(plain_key(p[i + 1]));
            }
        }
        assert(plain_path(q.drop_first())) by {
            assert forall|i: int| 0 <= i < q.len() - 1 implies plain_key(
                #[trigger] q.drop_first()[i],
            ) by {
                assert(plain_key(q[i + 1]));
            }
        }
        law_key_determines_path(member_key(parent, p[0]), p.drop_first(), q.drop_first());
        assert(p =~= seq![p[0]] + p.drop_first());
        assert(q =~= seq![q[0]] + q.drop_first());
    } else {
        assert(p =~= q);
    }
}

/// No two rows have the same key, where no object has a key twice and no key is
/// empty or holds a dot.
pub proof fn law_row_keys_differ(shape: JsonShape, parent: Seq<char>)
    requires
        distinct_keys(shape),
        plain_keys(shape),
    ensures
        keys_differ(flatten(shape, parent)),
{
    let rows = flatten(shape, parent);
    let paths = leaf_paths(shape);
    law_keys_spell_paths(shape, parent);
    law_paths_differ(shape);
    lemma_paths_are_plain(shape);
    assert forall|i: int, j: int| 0 <= i < j < rows.len() implies (#[trigger] rows[i]).0 != (
    #[trigger] rows[j]).0 by {
        assert(paths[i] != paths[j]);
        assert(plain_path(paths[i]) && plain_path(paths[j]));
        if rows[i].0 == rows[j].0 {
            law_key_determines_path(parent, paths[i], paths[j]);
        }
    }
}

/// The rows cut into pieces of `size`, the last one as long as it comes out.
pub open spec fn cut(
    rows: Seq<(Seq<char>, Seq<char>)>,
    size: nat,
) -> Seq<Seq<(Seq<char>, Seq<char>)>>
    decreases rows.len(),
{
    if rows.len() == 0 || size == 0 {
        Seq::empty()
    } else if rows.len() <= size {
        seq![rows]
    } else {
        seq![rows.take(size as int)] + cut(rows.skip(size as int), size)
    }
}

/// The batches that are sent from `state` on, where the receiver stays.
pub open spec fn batches(state: ScanState) -> Seq<Seq<(Seq<char>, Seq<char>)>>
    decreases 2 * (state.rows.len() - state.next) + state.batched,
{
    if !state.wf() {
        Seq::empty()
    } else {
        match state.action(false) {
            ScanAction::Append(_) => batches(state.after(false)),
            ScanAction::SendBatch => seq![state.batch()] + batches(state.after(false)),
            ScanAction::SendLast => seq![state.batch()],
            ScanAction::Done => Seq::empty(),
        }
    }
}

proof fn lemma_batches(state: ScanState)
    requires
        state.wf(),
        !state.over,
    ensures
        batches(state) == cut(state.rows.skip(state.next - state.batched), state.full()),
    decreases 2 * (state.rows.len() - state.next) + state.batched,
{
    let rest = state.rows.skip(state.next - state.batched);
    match state.action(false) {
        ScanAction::Append(_) => {
            lemma_batches(state.after(false));
        },
        ScanAction::SendBatch => {
            let after = state.after(false);
            lemma_batches(after);
            assert(state.batch() =~= rest.take(state.full() as int));
            assert(rest.skip(state.full() as int) =~= state.rows.skip(state.next as int));
            if rest.len() <= state.full() {
                assert(rest =~= state.batch());
                assert(batches(state) =~= seq![rest]);
            }
        },
        ScanAction::SendLast => {
            assert(rest =~= state.batch());
        },
        ScanAction::Done => {},
    }
}

/// A scan whose receiver stays sends all rows, in order, in batches of the
/// requested size; only the last batch may be smaller.
pub proof fn law_rows_come_in_batches(rows: Seq<(Seq<char>, Seq<char>)>, batch_size: nat)
    ensures
        batches(ScanState::start(rows, batch_size)) == cut(
            rows,
            ScanState::start(rows, batch_size).full(),
        ),
{
    let state = ScanState::start(rows, batch_size);
    lemma_batches(state);
    assert(rows.skip(0) =~= rows);
}

/// Cutting rows into pieces loses none and changes no order. No piece is empty,
/// and all but the last are full.
pub proof fn law_cut_keeps_rows(rows: Seq<(Seq<char>, Seq<char>)>, size: nat)
    requires
        size > 0,
    ensures
        cut(rows, size).flatten() == rows,
        forall|i: int|
            0 <= i < cut(rows, size).len() ==> 0 < (#[trigger] cut(rows, size)[i]).len() <= size,
        forall|i: int|
            0 <= i < cut(rows, size).len() - 1 ==> (#[trigger] cut(rows, size)[i]).len() == size,
    decreases rows.len(),
{
    let pieces = cut(rows, size);
    if rows.len() == 0 {
        assert(pieces.flatten() =~= rows);
    } else if rows.len() <= size {
        pieces.lemma_flatten_one_element();
    } else {
        let head = rows.take(size as int);
        let rest = rows.skip(size as int);
        let tail = cut(rest, size);
        law_cut_keeps_rows(rest, size);
        assert(pieces.drop_first() =~= tail);
        assert(pieces.first() == head);
        assert(pieces.flatten() == head + tail.flatten());
        assert(head + rest =~= rows);
        assert forall|i: int| 0 <= i < pieces.len() implies 0 < (#[trigger] pieces[i]).len()
            <= size by {
            if i > 0 {
                assert(pieces[i] == tail[i - 1]);
            }
        }
        assert forall|i: int| 0 <= i < pieces.len() - 1 implies (#[trigger] pieces[i]).len()
            == size by {
            if i > 0 {
                assert(pieces[i] == tail[i - 1]);
            }
        }
    }
}

/// A scan begins with all rows to hand out and nothing in the batch.
pub proof fn law_scan_starts_with_all_rows(rows: Seq<(Seq<char>, Seq<char>)>, batch_size: nat)
    ensures
        ScanState::start(rows, batch_size).rows == rows,
        ScanState::start(rows, batch_size).batch_size == batch_size,
        ScanState::start(rows, batch_size).next == 0,
        ScanState::start(rows, batch_size).batched == 0,
        !ScanState::start(rows, batch_size).over,
        ScanState::start(rows, batch_size).wf(),
{
}

/// A scan hands out rows until the batch has the requested size, sends it, and
/// goes on until there are no rows left; then it sends what is in the batch, if
/// there is anything. It is over then, and it is over once the receiver is gone.
pub proof fn law_scan_goes_on_until_all_is_sent(state: ScanState, receiver_gone: bool)
    ensures
        state.action(receiver_gone) is Done <==> state.over || receiver_gone || (state.batched == 0
            && state.next >= state.rows.len()),
        state.action(receiver_gone) is Append <==> !state.over && !receiver_gone && state.next
            < state.rows.len() && (state.batched == 0 || state.batched < state.batch_size),
        state.action(receiver_gone) is SendBatch <==> !state.over && !receiver_gone && state.batched
            > 0 && state.batched >= state.batch_size,
        state.action(receiver_gone) is SendLast <==> !state.over && !receiver_gone && state.next
            >= state.rows.len() && 0 < state.batched < state.batch_size,
        state.action(receiver_gone) matches ScanAction::Append(index) ==> state.next < usize::MAX
            ==> index == state.next,
        state.after(receiver_gone).rows == state.rows,
        state.after(receiver_gone).batch_size == state.batch_size,
        state.after(receiver_gone).next == if state.action(receiver_gone) is Append {
            state.next + 1
        } else {
            state.next
        },
        state.after(receiver_gone).batched == if state.action(receiver_gone) is Append {
            state.batched + 1
        } else if state.action(receiver_gone) is Done {
            state.batched
        } else {
            0
        },
        state.after(receiver_gone).over <==> state.action(receiver_gone) is Done || state.action(
            receiver_gone,
        ) is SendLast,
{
}

/// `actions` are what the steps of a scan say whose receiver stays, from the
/// first of `states` to the last.
pub open spec fn scans(states: Seq<ScanState>, actions: Seq<ScanAction>) -> bool {
    &&& states.len() == actions.len() + 1
    &&& forall|i: int|
        0 <= i < actions.len() ==> #[trigger] actions[i] == states[i].action(false)
            && states[i + 1] == states[i].after(false)
}

/// Every step goes on with a scan.
pub proof fn law_steps_make_scans(states: Seq<ScanState>, actions: Seq<ScanAction>, start: ScanState)
    ensures
        scans(seq![start], Seq::empty()),
        scans(states, actions) ==> scans(
            states.push(states.last().after(false)),
            actions.push(states.last().action(false)),
        ),
{
    if scans(states, actions) {
        let more_states = states.push(states.last().after(false));
        let more = actions.push(states.last().action(false));
        assert forall|i: int| 0 <= i < more.len() implies #[trigger] more[i]
            == more_states[i].action(false) && more_states[i + 1] == more_states[i].after(false) by {
            if i < actions.len() {
                assert(actions[i] == states[i].action(false));
            }
        }
    }
}

/// The indices that `actions` hand out, in order.
pub open spec fn indices(actions: Seq<ScanAction>) -> Seq<usize>
    decreases actions.len(),
{
    if actions.len() == 0 {
        Seq::empty()
    } else {
        match actions.last() {
            ScanAction::Append(index) => indices(actions.drop_last()).push(index),
            _ => indices(actions.drop_last()),
        }
    }
}

/// What is in the batch after `actions`: the rows at the indices that were handed
/// out since a batch was sent last.
pub open spec fn gathered(
    rows: Seq<(Seq<char>, Seq<char>)>,
    actions: Seq<ScanAction>,
) -> Seq<(Seq<char>, Seq<char>)>
    decreases actions.len(),
{
    if actions.len() == 0 {
        Seq::empty()
    } else {
        match actions.last() {
            ScanAction::Append(index) => gathered(rows, actions.drop_last()).push(
                rows[index as int],
            ),
            ScanAction::SendBatch => Seq::empty(),
            ScanAction::SendLast => Seq::empty(),
            ScanAction::Done => gathered(rows, actions.drop_last()),
        }
    }
}

/// The batches that were sent with `actions`.
pub open spec fn sent(
    rows: Seq<(Seq<char>, Seq<char>)>,
    actions: Seq<ScanAction>,
) -> Seq<Seq<(Seq<char>, Seq<char>)>>
    decreases actions.len(),
{
    if actions.len() == 0 {
        Seq::empty()
    } else {
        match actions.last() {
            ScanAction::SendBatch => sent(rows, actions.drop_last()).push(
                gathered(rows, actions.drop_last()),
            ),
            ScanAction::SendLast => sent(rows, actions.drop_last()).push(
                gathered(rows, actions.drop_last()),
            ),
            _ => sent(rows, actions.drop_last()),
        }
    }
}

/// What holds at every point of a scan whose receiver stays.
proof fn lemma_scan(
    states: Seq<ScanState>,
    actions: Seq<ScanAction>,
    rows: Seq<(Seq<char>, Seq<char>)>,
    batch_size: nat,
)
    requires
        scans(states, actions),
        states[0] == ScanState::start(rows, batch_size),
        rows.len() <= usize::MAX,
    ensures
        ({
            let state = states.last();
            let full = if batch_size == 0 {
                1
            } else {
                batch_size
            };
            let batches = sent(rows, actions);
            &&& state.wf()
            &&& state.rows == rows
            &&& state.batch_size == batch_size
            &&& indices(actions).len() == state.next
            &&& forall|j: int| 0 <= j < indices(actions).len() ==> #[trigger] indices(actions)[j] == j
            &&& gathered(rows, actions) == rows.subrange(
                state.next - state.batched,
                state.next as int,
            )
            &&& batches.flatten() == rows.take(state.next - state.batched)
            &&& batches.len() <= state.next - state.batched
            &&& state.over ==> state.batched == 0 && state.next == rows.len()
            &&& forall|j: int| 0 <= j < batches.len() ==> 0 < (#[trigger] batches[j]).len() <= full
            &&& forall|j: int|
                0 <= j < batches.len() && (j < batches.len() - 1 || !state.over) ==> (
                #[trigger] batches[j]).len() == full
            &&& actions.len() > 0 && actions.last() is Done ==> state.over
            &&& (forall|j: int| 0 <= j < actions.len() ==> !(#[trigger] actions[j] is Done))
                ==> actions.len() == indices(actions).len() + batches.len()
        }),
    decreases actions.len(),
{
    if actions.len() == 0 {
        assert(rows.subrange(0, 0) =~= Seq::empty());
        assert(rows.take(0) =~= Seq::empty());
        assert(sent(rows, actions).flatten() =~= Seq::empty());
    } else {
        let before = actions.drop_last();
        let pre = states[states.len() - 2];
        let post = states.last();
        let old_batches = sent(rows, before);
        let batches = sent(rows, actions);
        assert(actions[actions.len() - 1] == pre.action(false));
        assert forall|i: int| 0 <= i < before.len() implies #[trigger] before[i]
            == states.drop_last()[i].action(false) && states.drop_last()[i + 1]
            == states.drop_last()[i].after(false) by {
            assert(actions[i] == states[i].action(false));
        }
        lemma_scan(states.drop_last(), before, rows, batch_size);
        assert(states.drop_last().last() == pre);
        if forall|j: int| 0 <= j < actions.len() ==> !(#[trigger] actions[j] is Done) {
            assert forall|j: int| 0 <= j < before.len() implies !(#[trigger] before[j] is Done) by {
                assert(!(actions[j] is Done));
            }
        }
        match actions.last() {
            ScanAction::Append(index) => {
                assert(gathered(rows, actions) =~= rows.subrange(
                    post.next - post.batched,
                    post.next as int,
                ));
            },
            ScanAction::Done => {},
            _ => {
                old_batches.lemma_flatten_push(gathered(rows, before));
                assert(rows.take(pre.next - pre.batched) + gathered(rows, before) =~= rows.take(
                    pre.next as int,
                ));
                assert(rows.subrange(post.next as int, post.next as int) =~= Seq::empty());
            },
        }
    }
}

/// A scan whose receiver stays hands out the rows in order, each once: the first
/// index is the first row's, and each further one is the next row's. When it is
/// done, all rows were handed out.
pub proof fn law_rows_are_handed_out_in_order(
    states: Seq<ScanState>,
    actions: Seq<ScanAction>,
    rows: Seq<(Seq<char>, Seq<char>)>,
    batch_size: nat,
)
    requires
        scans(states, actions),
        states[0] == ScanState::start(rows, batch_size),
        rows.len() <= usize::MAX,
    ensures
        indices(actions).len() <= rows.len(),
        forall|j: int| 0 <= j < indices(actions).len() ==> #[trigger] indices(actions)[j] == j,
        actions.len() > 0 && actions.last() is Done ==> indices(actions).len() == rows.len(),
{
    lemma_scan(states, actions, rows, batch_size);
}

/// The batches that are sent in a scan whose receiver stays, made of the rows at
/// the indices that the scan hands out, are the rows in order when the scan is
/// done, and the first of them at any time before. No batch is empty, and all but
/// the last one have the requested size, or one row where that is zero.
pub proof fn law_batches_hold_the_rows_handed_out(
    states: Seq<ScanState>,
    actions: Seq<ScanAction>,
    rows: Seq<(Seq<char>, Seq<char>)>,
    batch_size: nat,
)
    requires
        scans(states, actions),
        states[0] == ScanState::start(rows, batch_size),
        rows.len() <= usize::MAX,
    ensures
        sent(rows, actions).flatten() + gathered(rows, actions) == rows.take(
            indices(actions).len() as int,
        ),
        actions.len() > 0 && actions.last() is Done ==> sent(rows, actions).flatten() == rows,
        forall|j: int|
            0 <= j < sent(rows, actions).len() ==> (#[trigger] sent(rows, actions)[j]).len() > 0
                && (sent(rows, actions)[j].len() == 1 || sent(rows, actions)[j].len()
                <= batch_size),
        forall|j: int|
            0 <= j < sent(rows, actions).len() - 1 ==> (#[trigger] sent(rows, actions)[j]).len()
                == if batch_size == 0 {
                1
            } else {
                batch_size
            },
{
    lemma_scan(states, actions, rows, batch_size);
    let state = states.last();
    assert(rows.take(state.next - state.batched) + rows.subrange(
        state.next - state.batched,
        state.next as int,
    ) =~= rows.take(state.next as int));
    if state.over {
        assert(rows.take(rows.len() as int) =~= rows);
    }
}

/// A scan whose receiver stays is done after at most two steps for each row.
pub proof fn law_scan_ends(
    states: Seq<ScanState>,
    actions: Seq<ScanAction>,
    rows: Seq<(Seq<char>, Seq<char>)>,
    batch_size: nat,
)
    requires
        scans(states, actions),
        states[0] == ScanState::start(rows, batch_size),
        rows.len() <= usize::MAX,
        actions.len() > 2 * rows.len(),
    ensures
        exists|i: int| 0 <= i < actions.len() && #[trigger] actions[i] is Done,
{
    lemma_scan(states, actions, rows, batch_size);
}

/// Once the receiver is gone, there is nothing more to do.
pub proof fn law_scan_stops_without_receiver(state: ScanState, receiver_gone: bool)
    ensures
        state.action(true) is Done,
        state.after(true).action(receiver_gone) is Done,
        state.after(true).after(receiver_gone) == state.after(true),
{
}

} // verus!
