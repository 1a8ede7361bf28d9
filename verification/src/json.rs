//! The tree that a reader builds: every leaf is kept as text.

use vstd::prelude::*;

verus! {

/// The shape of a JSON value whose leaves are text.
#[derive(PartialEq, Eq, Debug)]
pub enum JsonInner {
    /// `null`
    Null,
    /// `true` or `false`
    Bool(bool),
    /// A number, as the exact characters that were read
    Number(String),
    /// A string: the bytes between its quotes, with its escapes decoded
    String(String),
    /// The elements of an array, in the order read
    Array(Vec<Json>),
    /// The members of an object, in the order read; a key may occur twice
    Object(Vec<(String, Json)>),
}

/// A JSON value whose leaves are text.
#[derive(PartialEq, Eq, Debug)]
pub struct Json(pub JsonInner);

/// The mathematical value of a [`Json`].
pub enum Tree {
    Null,
    Bool(bool),
    Number(Seq<char>),
    String(Seq<char>),
    Array(Seq<Tree>),
    Object(Seq<(Seq<char>, Tree)>),
}

impl View for Json {
    type V = Tree;

    open spec fn view(&self) -> Tree
        decreases self,
    {
        match self.0 {
            JsonInner::Null => Tree::Null,
            JsonInner::Bool(b) => Tree::Bool(b),
            JsonInner::Number(text) => Tree::Number(text@),
            JsonInner::String(text) => Tree::String(text@),
            JsonInner::Array(items) => Tree::Array(
                Seq::new(
                    items@.len(),
                    |i: int|
                        if 0 <= i < items@.len() {
                            items@[i].view()
                        } else {
                            Tree::Null
                        },
                ),
            ),
            JsonInner::Object(members) => {
                let values = Seq::new(
                    members@.len(),
                    |i: int|
                        if 0 <= i < members@.len() {
                            members@[i].1.view()
                        } else {
                            Tree::Null
                        },
                );
                Tree::Object(Seq::new(members@.len(), |i: int| (members@[i].0@, values[i])))
            },
        }
    }
}

/// An array is viewed element by element.
pub proof fn lemma_array_view(items: Vec<Json>, trees: Seq<Tree>)
    requires
        trees.len() == items@.len(),
        forall|i: int| 0 <= i < trees.len() ==> trees[i] == items@[i]@,
    ensures
        Json(JsonInner::Array(items))@ == Tree::Array(trees),
{
    let viewed = Json(JsonInner::Array(items))@;
    assert(viewed->Array_0 =~= trees);
}

/// An object is viewed member by member.
pub proof fn lemma_object_view(members: Vec<(String, Json)>, trees: Seq<(Seq<char>, Tree)>)
    requires
        trees.len() == members@.len(),
        forall|i: int| 0 <= i < trees.len() ==> trees[i] == (members@[i].0@, members@[i].1@),
    ensures
        Json(JsonInner::Object(members))@ == Tree::Object(trees),
{
    let viewed = Json(JsonInner::Object(members))@;
    assert(viewed->Object_0 =~= trees);
}

} // verus!
