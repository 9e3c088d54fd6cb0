//! The metadata tree of a snapshot: null, booleans, numbers, text, lists and
//! objects, as a JSON document holds them.

use vstd::prelude::*;

verus! {

/// A node of a metadata tree.
#[derive(Debug, PartialEq, Eq)]
pub enum MetadataTree {
    Null,
    Bool(bool),
    /// A number, with its value where it is an integer in the range of `i64`.
    Number(Option<i64>),
    Text(String),
    List(Vec<MetadataTree>),
    /// The members of an object, each with its key.
    Object(Vec<(String, MetadataTree)>),
}

/// The place of the first member with `key`, if any member has it.
pub open spec fn member_index(members: Seq<(String, MetadataTree)>, key: Seq<char>) -> Option<int>
    decreases members.len(),
{
    if members.len() == 0 {
        None
    } else {
        match member_index(members.drop_last(), key) {
            Some(i) => Some(i),
            None => if members.last().0@ == key {
                Some(members.len() - 1)
            } else {
                None
            },
        }
    }
}

/// `member_index` gives the first member with the key, and `None` only where
/// no member has it.
pub proof fn member_index_is_first(members: Seq<(String, MetadataTree)>, key: Seq<char>)
    ensures
        match member_index(members, key) {
            Some(i) => 0 <= i < members.len() && members[i].0@ == key && forall|j: int|
                0 <= j < i ==> (#[trigger] members[j]).0@ != key,
            None => forall|j: int| 0 <= j < members.len() ==> (#[trigger] members[j]).0@ != key,
        },
    decreases members.len(),
{
    if members.len() > 0 {
        let front = members.drop_last();
        member_index_is_first(front, key);
        assert forall|j: int| 0 <= j < front.len() implies front[j] == members[j] by {}
        match member_index(front, key) {
            Some(i) => {
                assert(members[i] == front[i]);
                assert forall|j: int| 0 <= j < i implies (#[trigger] members[j]).0@ != key by {
                    assert(front[j] == members[j]);
                }
            },
            None => {
                assert forall|j: int| 0 <= j < members.len() - 1 implies (#[trigger] members[j]).0@
                    != key by {
                    assert(front[j] == members[j]);
                }
            },
        }
    }
}

impl MetadataTree {
    /// What stands under `key` in this node: the value of the first member with
    /// that key where the node is an object that has one, and `Null` otherwise.
    pub open spec fn spec_field(self, key: Seq<char>) -> MetadataTree {
        match self {
            MetadataTree::Object(members) => match member_index(members@, key) {
                Some(i) => members@[i].1,
                None => MetadataTree::Null,
            },
            _ => MetadataTree::Null,
        }
    }

    /// What stands under `key` in this node: the value of the first member with
    /// that key where the node is an object that has one, and `None` otherwise.
    pub fn field(&self, key: &str) -> (r: Option<&MetadataTree>)
        ensures
            match r {
                Some(node) => *node == self.spec_field(key@) && self is Object && member_index(
                    self->Object_0@,
                    key@,
                ) is Some,
                None => self.spec_field(key@) == MetadataTree::Null && (self is Object
                    ==> member_index(self->Object_0@, key@) is None),
            },
    {
        match self {
            MetadataTree::Object(members) => {
                let wanted: String = key.to_owned();
                let mut i: usize = 0;
                while i < members.len()
                    invariant
                        i <= members@.len(),
                        wanted@ == key@,
                        *self == MetadataTree::Object(*members),
                        forall|j: int| 0 <= j < i ==> (#[trigger] members@[j]).0@ != key@,
                    decreases members@.len() - i,
                {
                    if members[i].0 == wanted {
                        proof {
                            member_index_is_first(members@, key@);
                            let found = member_index(members@, key@);
                            assert(members@[i as int].0@ == key@);
                            assert(found is Some);
                            let k = found->0;
                            assert(members@[k].0@ == key@);
                            assert(k == i);
                        }
                        return Some(&members[i].1);
                    }
                    i = i + 1;
                }
                proof {
                    member_index_is_first(members@, key@);
                }
                None
            },
            _ => None,
        }
    }
}

/// `serde_json::Value`, of which nothing is known here: it is only handed from
/// the parser to the function that turns it into a tree.
#[verifier::external_type_specification]
#[verifier::external_body]
pub struct ExValue(serde_json::Value);

/// The tree that a JSON text stands for, and `None` for a text that is no
/// JSON document.
pub uninterp spec fn json_tree(text: Seq<char>) -> Option<MetadataTree>;

/// Turns a `serde_json::Value` into a tree, node by node: each variant of
/// `Value` becomes the variant of the same kind, a number keeping what
/// `Number::as_i64` gives for it, an object keeping its members in the order in
/// which `serde_json::Map` hands them out.
#[verifier::external_body]
fn tree_of_value(value: serde_json::Value) -> (tree: MetadataTree) {
    match value {
        serde_json::Value::Null => MetadataTree::Null,
        serde_json::Value::Bool(b) => MetadataTree::Bool(b),
        serde_json::Value::Number(n) => MetadataTree::Number(n.as_i64()),
        serde_json::Value::String(s) => MetadataTree::Text(s),
        serde_json::Value::Array(a) => MetadataTree::List(a.into_iter().map(tree_of_value).collect()),
        serde_json::Value::Object(m) => MetadataTree::Object(
            m.into_iter().map(|(k, v)| (k, tree_of_value(v))).collect(),
        ),
    }
}

/// Parses a JSON text with `serde_json::from_str`. The result depends on the
/// text alone: the tree of the document, or `None` where `from_str` reports an
/// error.
#[verifier::external_body]
fn parse_json(text: &str) -> (r: Option<MetadataTree>)
    ensures
        r == json_tree(text@),
{
    match serde_json::from_str::<serde_json::Value>(text) {
        Ok(value) => Some(tree_of_value(value)),
        Err(_) => None,
    }
}

/// Parses a JSON text into its tree, or `None` where the text is no JSON
/// document.
pub fn parse_tree(text: &str) -> (r: Option<MetadataTree>)
    ensures
        r == json_tree(text@),
{
    parse_json(text)
}

} // verus!
