//! The protocol's data model.

use vstd::prelude::*;
use vstd::std_specs::vec::axiom_vec_index_decreases;

verus! {

/// One typed protocol value, as it is held in memory.
#[derive(Debug, PartialEq, Eq)]
pub enum Value {
    /// A short status reply.
    SimpleString(String),
    /// A length-prefixed string: commands, keys and values.
    BulkString(String),
    /// An ordered sequence of values.
    Array(Vec<Value>),
    /// A failure reply.
    Error(String),
    /// Absence.
    Null,
}

/// The mathematical content of a [`Value`].
pub enum Content {
    SimpleString(Seq<char>),
    BulkString(Seq<char>),
    Array(Seq<Content>),
    Error(Seq<char>),
    Null,
}

impl View for Value {
    type V = Content;

    open spec fn view(&self) -> Content
        decreases self,
    {
        match self {
            Value::SimpleString(text) => Content::SimpleString(text@),
            Value::BulkString(text) => Content::BulkString(text@),
            Value::Array(items) => Content::Array(
                Seq::new(
                    items.len() as nat,
                    |i: int|
                        if 0 <= i < items.len() {
                            items[i]@
                        } else {
                            Content::Null
                        },
                ),
            ),
            Value::Error(text) => Content::Error(text@),
            Value::Null => Content::Null,
        }
    }
}

/// The contents of a run of values, in order.
pub open spec fn contents(items: Seq<Value>) -> Seq<Content> {
    Seq::new(items.len(), |i: int| items[i]@)
}

/// The content of an array is the contents of its items.
pub proof fn lemma_array_content(items: Vec<Value>)
    ensures
        Value::Array(items)@ == Content::Array(contents(items@)),
{
    assert(Value::Array(items)@->Array_0 =~= contents(items@));
}

/// A copy of `value`.
pub fn duplicate(value: &Value) -> (copy: Value)
    ensures
        copy@ == value@,
    decreases value,
{
    match value {
        Value::SimpleString(text) => Value::SimpleString(text.clone()),
        Value::BulkString(text) => Value::BulkString(text.clone()),
        Value::Error(text) => Value::Error(text.clone()),
        Value::Null => Value::Null,
        Value::Array(items) => {
            let mut copies: Vec<Value> = Vec::new();
            let mut i: usize = 0;
            while i < items.len()
                invariant
                    i <= items.len(),
                    *value == Value::Array(*items),
                    copies.len() == i,
                    forall|j: int| 0 <= j < i ==> (#[trigger] copies[j])@ == items[j]@,
                decreases items.len() - i,
            {
                proof {
                    assert(decreases_to!(*value => value->Array_0));
                    axiom_vec_index_decreases(*items, i as int);
                }
                let copy = duplicate(&items[i]);
                copies.push(copy);
                i = i + 1;
            }
            proof {
                lemma_array_content(*items);
                lemma_array_content(copies);
                assert(contents(copies@) =~= contents(items@));
            }
            Value::Array(copies)
        },
    }
}

impl Clone for Value {
    fn clone(&self) -> (copy: Value)
        ensures
            copy@ == self@,
    {
        duplicate(self)
    }
}

} // verus!
