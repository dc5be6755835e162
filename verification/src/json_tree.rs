//! JSON values as trees of objects, and the rows that they flatten to.

use vstd::prelude::*;
use vstd::string::StringExecFns;

use crate::config_laws::law_row_keys_differ;

verus! {

/// The values of the `serde_json` crate.
#[verifier::external_type_specification]
#[verifier::external_body]
pub struct ExValue(serde_json::Value);

/// A JSON value: an object with its members in order, or any other value with
/// its JSON text.
pub enum JsonShape {
    Leaf(Seq<char>),
    Object(Seq<(Seq<char>, JsonShape)>),
}

/// What `value` holds: the members of an object, in the order in which its map
/// lists them, and the text that any other value is written as.
pub uninterp spec fn json_shape(value: serde_json::Value) -> JsonShape;

/// `serde_json::Map::iter`, called for the map of an object: it lists the keys
/// with their values, in order, and no key twice. Only an object has members.
#[verifier::external_body]
fn json_members(value: &serde_json::Value) -> (members: Option<
    Vec<(&String, &serde_json::Value)>,
>)
    ensures
        match (json_shape(*value), members) {
            (JsonShape::Object(shapes), Some(members)) => {
                &&& members@.len() == shapes.len()
                &&& forall|i: int|
                    0 <= i < shapes.len() ==> (#[trigger] members@[i]).0@ == shapes[i].0
                        && json_shape(*members@[i].1) == shapes[i].1
                &&& forall|i: int, j: int|
                    0 <= i < j < shapes.len() ==> (#[trigger] shapes[i]).0 != (
                    #[trigger] shapes[j]).0
            },
            (JsonShape::Leaf(_), None) => true,
            _ => false,
        },
{
    match value {
        serde_json::Value::Object(map) => Some(map.iter().collect()),
        _ => None,
    }
}

/// No object in `shape` has two members with the same key.
pub open spec fn distinct_keys(shape: JsonShape) -> bool
    decreases shape,
{
    match shape {
        JsonShape::Leaf(_) => true,
        JsonShape::Object(members) => {
            &&& forall|i: int, j: int|
                0 <= i < j < members.len() ==> (#[trigger] members[i]).0 != (
                #[trigger] members[j]).0
            &&& forall|i: int|
                0 <= i < members.len() ==> distinct_keys((#[trigger] members[i]).1)
        },
    }
}

/// `key` is not empty and holds no dot.
pub open spec fn plain_key(key: Seq<char>) -> bool {
    key.len() > 0 && !key.contains('.')
}

/// The keys of all members in `shape` are plain.
pub open spec fn plain_keys(shape: JsonShape) -> bool
    decreases shape,
{
    match shape {
        JsonShape::Leaf(_) => true,
        JsonShape::Object(members) => forall|i: int|
            0 <= i < members.len() ==> plain_key((#[trigger] members[i]).0) && plain_keys(
                members[i].1,
            ),
    }
}

/// No two rows have the same key.
pub open spec fn keys_differ(rows: Seq<(Seq<char>, Seq<char>)>) -> bool {
    forall|i: int, j: int|
        0 <= i < j < rows.len() ==> (#[trigger] rows[i]).0 != (#[trigger] rows[j]).0
}

/// `serde_json::to_string`, called for a value that is no object: it writes the
/// value as JSON text, which never fails for a `serde_json::Value`.
///
/// That the stack may run out on arrays in arrays is left unsaid.
#[verifier::external_body]
fn json_text(value: &serde_json::Value) -> (text: String)
    requires
        json_shape(*value) is Leaf,
    ensures
        text@ == json_shape(*value)->Leaf_0,
{
    serde_json::to_string(value).unwrap()
}

/// A JSON value: an object with its members in order, or any other value with
/// its JSON text.
pub enum JsonTree {
    Leaf(String),
    Object(Vec<(String, JsonTree)>),
}

impl JsonTree {
    /// What the tree stands for.
    pub open spec fn shape(self) -> JsonShape
        decreases self,
    {
        match self {
            JsonTree::Leaf(text) => JsonShape::Leaf(text@),
            JsonTree::Object(members) => JsonShape::Object(
                Seq::new(
                    members@.len(),
                    |i: int|
                        if 0 <= i < members@.len() {
                            (members@[i].0@, members@[i].1.shape())
                        } else {
                            arbitrary()
                        },
                ),
            ),
        }
    }

    /// A leaf stands for its text, and an object for its members: as many as it
    /// has, in the same order, each with its key.
    pub proof fn law_shape_shows_tree(self)
        ensures
            match self {
                JsonTree::Leaf(text) => self.shape() is Leaf && self.shape()->Leaf_0 == text@,
                JsonTree::Object(members) => {
                    &&& self.shape() is Object
                    &&& self.shape()->Object_0.len() == members@.len()
                    &&& forall|i: int|
                        0 <= i < members@.len() ==> (#[trigger] self.shape()->Object_0[i]).0
                            == members@[i].0@ && self.shape()->Object_0[i].1
                            == members@[i].1.shape()
                },
            },
    {
    }

    /// Reads a value of the `serde_json` crate.
    pub fn read(value: &serde_json::Value) -> (tree: JsonTree)
        ensures
            tree.shape() == json_shape(*value),
            distinct_keys(tree.shape()),
        decreases json_shape(*value),
    {
        match json_members(value) {
            None => JsonTree::Leaf(json_text(value)),
            Some(members) => {
                let ghost shapes = json_shape(*value)->Object_0;
                let mut read: Vec<(String, JsonTree)> = Vec::new();
                let mut i: usize = 0;
                while i < members.len()
                    invariant
                        0 <= i <= members@.len(),
                        read@.len() == i,
                        json_shape(*value) == JsonShape::Object(shapes),
                        members@.len() == shapes.len(),
                        forall|j: int|
                            0 <= j < shapes.len() ==> (#[trigger] members@[j]).0@ == shapes[j].0
                                && json_shape(*members@[j].1) == shapes[j].1,
                        forall|j: int|
                            0 <= j < i ==> (#[trigger] read@[j]).0@ == shapes[j].0
                                && read@[j].1.shape() == shapes[j].1,
                        forall|j: int| 0 <= j < i ==> distinct_keys((#[trigger] shapes[j]).1),
                    decreases members@.len() - i,
                {
                    let (key, member) = members[i];
                    assert(decreases_to!(
                        json_shape(*value) => json_shape(*value)->Object_0[i as int].1
                    ));
                    read.push((key.clone(), JsonTree::read(member)));
                    i += 1;
                }
                let tree = JsonTree::Object(read);
                assert(tree.shape()->Object_0 =~= shapes);
                tree
            },
        }
    }
}

/// The key of a member `key` of the object whose key is `parent`. The key of
/// the outermost object is empty.
pub open spec fn member_key(parent: Seq<char>, key: Seq<char>) -> Seq<char> {
    if parent.len() == 0 {
        key
    } else {
        parent + seq!['.'] + key
    }
}

/// The rows of a value whose key is `parent`: the key and the text of each value
/// in it that is no object, in order.
pub open spec fn flatten(shape: JsonShape, parent: Seq<char>) -> Seq<(Seq<char>, Seq<char>)>
    decreases shape,
{
    match shape {
        JsonShape::Leaf(text) => seq![(parent, text)],
        JsonShape::Object(members) => flatten_members(members, parent),
    }
}

/// The rows of the members of an object whose key is `parent`.
pub open spec fn flatten_members(
    members: Seq<(Seq<char>, JsonShape)>,
    parent: Seq<char>,
) -> Seq<(Seq<char>, Seq<char>)>
    decreases members,
{
    if members.len() == 0 {
        Seq::empty()
    } else {
        flatten_members(members.drop_last(), parent) + flatten(
            members[members.len() - 1].1,
            member_key(parent, members[members.len() - 1].0),
        )
    }
}

/// What the rows `rows` say.
pub open spec fn row_texts(rows: Seq<(String, String)>) -> Seq<(Seq<char>, Seq<char>)> {
    rows.map_values(|row: (String, String)| (row.0@, row.1@))
}

/// The texts of rows are the keys and values of the rows as they are.
pub proof fn law_row_texts_show_rows(rows: Seq<(String, String)>)
    ensures
        row_texts(rows).len() == rows.len(),
        forall|i: int|
            0 <= i < rows.len() ==> (#[trigger] row_texts(rows)[i]).0 == rows[i].0@ && row_texts(
                rows,
            )[i].1 == rows[i].1@,
{
}

/// The key of a member.
fn join_key(parent: &String, key: &String) -> (joined: String)
    ensures
        joined@ == member_key(parent@, key@),
        parent@.len() == 0 ==> joined@ == key@,
        parent@.len() > 0 ==> joined@ == parent@ + seq!['.'] + key@,
{
    if !parent.as_str().is_empty() {
        let mut joined = parent.clone();
        joined.append(".");
        joined.append(key.as_str());
        proof {
            reveal_strlit(".");
            assert("."@ =~= seq!['.']);
        }
        joined
    } else {
        key.clone()
    }
}

/// Adds the rows of `tree` to `res`.
pub fn flatten_tree(tree: &JsonTree, parent: String, res: &mut Vec<(String, String)>)
    ensures
        row_texts(final(res)@) == row_texts(old(res)@) + flatten(tree.shape(), parent@),
    decreases tree,
{
    match tree {
        JsonTree::Leaf(text) => {
            res.push((parent, text.clone()));
            assert(row_texts(res@) =~= row_texts(old(res)@) + flatten(tree.shape(), parent@));
        },
        JsonTree::Object(members) => {
            let ghost shapes = tree.shape()->Object_0;
            let ghost before = row_texts(res@);
            let mut i: usize = 0;
            while i < members.len()
                invariant
                    0 <= i <= members@.len(),
                    members@.len() == shapes.len(),
                    *tree == JsonTree::Object(*members),
                    tree.shape() == JsonShape::Object(shapes),
                    row_texts(res@) == before + flatten_members(shapes.take(i as int), parent@),
                decreases members@.len() - i,
            {
                let (key, member) = &members[i];
                flatten_tree(member, join_key(&parent, key), res);
                assert(shapes.take(i + 1).drop_last() =~= shapes.take(i as int));
                i += 1;
            }
            assert(shapes.take(i as int) =~= shapes);
        },
    }
}

/// Adds the rows of `val` to `res`. No two of them have the same key, where no
/// key in `val` is empty or holds a dot.
pub fn flatten_json(val: &serde_json::Value, parent: String, res: &mut Vec<(String, String)>)
    ensures
        row_texts(final(res)@) == row_texts(old(res)@) + flatten(json_shape(*val), parent@),
        distinct_keys(json_shape(*val)),
        plain_keys(json_shape(*val)) ==> keys_differ(flatten(json_shape(*val), parent@)),
{
    let tree = JsonTree::read(val);
    proof {
        if plain_keys(tree.shape()) {
            law_row_keys_differ(tree.shape(), parent@);
        }
    }
    flatten_tree(&tree, parent, res)
}

} // verus!
