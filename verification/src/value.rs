//! The value tree that is flattened, and its mathematical model.

use vstd::prelude::*;

verus! {

/// The mathematical model of a [`Value`]: the same tree, with sequences in
/// place of vectors and strings.
pub enum Tree {
    Bool(bool),
    U8(u8),
    U16(u16),
    U32(u32),
    U64(u64),
    I8(i8),
    I16(i16),
    I32(i32),
    I64(i64),
    F32(u32),
    F64(u64),
    Char(char),
    String(Seq<char>),
    Unit,
    Option(Option<Box<Tree>>),
    Newtype(Box<Tree>),
    Sequence(Seq<Tree>),
    Mapping(Seq<(Tree, Tree)>),
    Bytes(Seq<u8>),
}

/// A node of a value tree.
#[derive(Debug, PartialEq, Eq)]
pub enum Value {
    Bool(bool),
    U8(u8),
    U16(u16),
    U32(u32),
    U64(u64),
    I8(i8),
    I16(i16),
    I32(i32),
    I64(i64),
    /// A single-precision float, held as its IEEE 754 bit pattern.
    F32(u32),
    /// A double-precision float, held as its IEEE 754 bit pattern.
    F64(u64),
    Char(char),
    String(String),
    Unit,
    Option(Option<Box<Value>>),
    Newtype(Box<Value>),
    /// An ordered list of values.
    Sequence(Vec<Value>),
    /// An ordered collection of key/value pairs.
    Mapping(Vec<(Value, Value)>),
    Bytes(Vec<u8>),
}

/// The model of a value: each vector becomes the sequence of its items'
/// models, each string the sequence of its characters.
pub open spec fn model(v: Value) -> Tree
    decreases v,
{
    match v {
        Value::Bool(b) => Tree::Bool(b),
        Value::U8(n) => Tree::U8(n),
        Value::U16(n) => Tree::U16(n),
        Value::U32(n) => Tree::U32(n),
        Value::U64(n) => Tree::U64(n),
        Value::I8(n) => Tree::I8(n),
        Value::I16(n) => Tree::I16(n),
        Value::I32(n) => Tree::I32(n),
        Value::I64(n) => Tree::I64(n),
        Value::F32(n) => Tree::F32(n),
        Value::F64(n) => Tree::F64(n),
        Value::Char(c) => Tree::Char(c),
        Value::String(s) => Tree::String(s@),
        Value::Unit => Tree::Unit,
        Value::Option(None) => Tree::Option(None),
        Value::Option(Some(inner)) => Tree::Option(Some(Box::new(model(*inner)))),
        Value::Newtype(inner) => Tree::Newtype(Box::new(model(*inner))),
        Value::Sequence(items) => Tree::Sequence(
            Seq::new(
                items.len() as nat,
                |i: int|
                    if 0 <= i < items.len() {
                        model(items[i])
                    } else {
                        Tree::Unit
                    },
            ),
        ),
        Value::Mapping(pairs) => Tree::Mapping(
            Seq::new(
                pairs.len() as nat,
                |i: int|
                    if 0 <= i < pairs.len() {
                        (model(pairs[i].0), model(pairs[i].1))
                    } else {
                        (Tree::Unit, Tree::Unit)
                    },
            ),
        ),
        Value::Bytes(bytes) => Tree::Bytes(bytes@),
    }
}

impl View for Value {
    type V = Tree;

    open spec fn view(&self) -> Tree {
        model(*self)
    }
}

/// Each item of a sequence is a smaller tree than the sequence.
pub proof fn lemma_item_smaller(v: Value, i: int)
    requires
        v is Sequence,
        0 <= i < v->Sequence_0.len(),
    ensures
        decreases_to!(v => v->Sequence_0[i]),
{
    let items = v->Sequence_0;
    assert(decreases_to!(v => items));
    assert(decreases_to!(items => items[i]));
}

/// Each key and each value of a mapping is a smaller tree than the mapping.
pub proof fn lemma_pair_smaller(v: Value, i: int)
    requires
        v is Mapping,
        0 <= i < v->Mapping_0.len(),
    ensures
        decreases_to!(v => v->Mapping_0[i].0),
        decreases_to!(v => v->Mapping_0[i].1),
{
    let pairs = v->Mapping_0;
    assert(decreases_to!(v => pairs));
    assert(decreases_to!(pairs => pairs[i]));
    assert(decreases_to!(pairs[i] => pairs[i].0));
    assert(decreases_to!(pairs[i] => pairs[i].1));
}

impl Clone for Value {
    /// A copy of the whole tree.
    fn clone(&self) -> (r: Value)
        ensures
            r@ == self@,
        decreases self,
    {
        match self {
            Value::Bool(b) => Value::Bool(*b),
            Value::U8(n) => Value::U8(*n),
            Value::U16(n) => Value::U16(*n),
            Value::U32(n) => Value::U32(*n),
            Value::U64(n) => Value::U64(*n),
            Value::I8(n) => Value::I8(*n),
            Value::I16(n) => Value::I16(*n),
            Value::I32(n) => Value::I32(*n),
            Value::I64(n) => Value::I64(*n),
            Value::F32(n) => Value::F32(*n),
            Value::F64(n) => Value::F64(*n),
            Value::Char(c) => Value::Char(*c),
            Value::String(s) => Value::String(s.clone()),
            Value::Unit => Value::Unit,
            Value::Option(None) => Value::Option(None),
            Value::Option(Some(inner)) => Value::Option(Some(Box::new((&**inner).clone()))),
            Value::Newtype(inner) => Value::Newtype(Box::new((&**inner).clone())),
            Value::Sequence(items) => {
                let mut copy: Vec<Value> = Vec::new();
                let mut i: usize = 0;
                while i < items.len()
                    invariant
                        *self == Value::Sequence(*items),
                        i <= items.len(),
                        copy.len() == i,
                        forall|j: int| 0 <= j < i ==> (#[trigger] copy[j])@ == items[j]@,
                    decreases items.len() - i,
                {
                    proof {
                        lemma_item_smaller(*self, i as int);
                    }
                    copy.push(items[i].clone());
                    i += 1;
                }
                let r = Value::Sequence(copy);
                assert(r@->Sequence_0 =~= self@->Sequence_0);
                r
            },
            Value::Mapping(pairs) => {
                let mut copy: Vec<(Value, Value)> = Vec::new();
                let mut i: usize = 0;
                while i < pairs.len()
                    invariant
                        *self == Value::Mapping(*pairs),
                        i <= pairs.len(),
                        copy.len() == i,
                        forall|j: int|
                            0 <= j < i ==> (#[trigger] copy[j]).0@ == pairs[j].0@ && copy[j].1@
                                == pairs[j].1@,
                    decreases pairs.len() - i,
                {
                    proof {
                        lemma_pair_smaller(*self, i as int);
                    }
                    let key = pairs[i].0.clone();
                    let value = pairs[i].1.clone();
                    copy.push((key, value));
                    i += 1;
                }
                let r = Value::Mapping(copy);
                assert(r@->Mapping_0 =~= self@->Mapping_0);
                r
            },
            Value::Bytes(bytes) => {
                let copy = bytes.clone();
                assert(copy@ =~= bytes@);
                Value::Bytes(copy)
            },
        }
    }
}

} // verus!
