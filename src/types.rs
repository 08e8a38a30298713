//! JSON values and the mathematical model that the parsers' contracts use.
use vstd::prelude::*;

verus! {

/// The text of a JSON string: borrowed from the input when the source
/// spelling held no escape, owned when escapes had to be decoded.
#[derive(Debug, PartialEq)]
pub enum Text<'a> {
    Borrowed(&'a str),
    Owned(String),
}

impl<'a> View for Text<'a> {
    type V = Seq<char>;

    open spec fn view(&self) -> Seq<char> {
        match self {
            Text::Borrowed(s) => s@,
            Text::Owned(s) => s@,
        }
    }
}

impl<'a> Text<'a> {
    /// The text as a string slice.
    pub fn as_str(&self) -> (r: &str)
        ensures
            r@ == self@,
    {
        match self {
            Text::Borrowed(s) => s,
            Text::Owned(s) => s.as_str(),
        }
    }
}

/// The model of a decoded JSON value.
pub enum SpecValue {
    Array(Seq<SpecValue>),
    Boolean(bool),
    Object(Seq<(Seq<char>, SpecValue)>),
    Null,
    Number(Seq<char>),
    String(Seq<char>),
}

/// A decoded JSON value. A number is kept as its source text, which any
/// double-precision conversion can read; strings are decoded text.
#[derive(Debug, PartialEq)]
pub enum Value<'a> {
    /// Structured `array` type
    Array(Vec<Value<'a>>),
    /// Primitive `boolean` type
    Boolean(bool),
    /// Structured `object` type: pairs in order of each key's first
    /// appearance, keys unique
    Object(Vec<(Text<'a>, Value<'a>)>),
    /// Primitive `null` type
    Null,
    /// Primitive `number` type, as written in the input
    Number(&'a str),
    /// Primitive `string` type
    String(Text<'a>),
}

impl<'a> Value<'a> {
    /// The model of this value.
    pub open spec fn view_value(&self) -> SpecValue
        decreases self,
    {
        match self {
            Value::Array(items) => SpecValue::Array(
                Seq::new(
                    items.len() as nat,
                    |i: int|
                        if 0 <= i < items.len() {
                            proof {
                                vstd::std_specs::vec::axiom_vec_index_decreases(*items, i);
                            }
                            items[i].view_value()
                        } else {
                            SpecValue::Null
                        },
                ),
            ),
            Value::Boolean(b) => SpecValue::Boolean(*b),
            Value::Object(pairs) => SpecValue::Object(
                Seq::new(
                    pairs.len() as nat,
                    |i: int|
                        if 0 <= i < pairs.len() {
                            proof {
                                vstd::std_specs::vec::axiom_vec_index_decreases(*pairs, i);
                            }
                            (pairs[i].0@, pairs[i].1.view_value())
                        } else {
                            (Seq::empty(), SpecValue::Null)
                        },
                ),
            ),
            Value::Null => SpecValue::Null,
            Value::Number(s) => SpecValue::Number(s@),
            Value::String(t) => SpecValue::String(t@),
        }
    }
}

impl<'a> Value<'a> {
    /// The name of this value's kind.
    pub fn repr(&self) -> (r: &'a str)
        ensures
            r@ == kind_name(self.view_value()),
    {
        match *self {
            Value::Array(_) => "array",
            Value::Boolean(_) => "boolean",
            Value::Object(_) => "object",
            Value::Null => "null",
            Value::Number(_) => "number",
            Value::String(_) => "string",
        }
    }
}

/// The name of a value's kind.
pub open spec fn kind_name(v: SpecValue) -> Seq<char> {
    match v {
        SpecValue::Array(_) => "array"@,
        SpecValue::Boolean(_) => "boolean"@,
        SpecValue::Object(_) => "object"@,
        SpecValue::Null => "null"@,
        SpecValue::Number(_) => "number"@,
        SpecValue::String(_) => "string"@,
    }
}

/// The models of a sequence of values.
pub open spec fn views<'a>(items: Seq<Value<'a>>) -> Seq<SpecValue> {
    Seq::new(items.len(), |i: int| items[i].view_value())
}

/// The models of a sequence of object pairs.
pub open spec fn pair_views<'a>(pairs: Seq<(Text<'a>, Value<'a>)>) -> Seq<(Seq<char>, SpecValue)> {
    Seq::new(pairs.len(), |i: int| (pairs[i].0@, pairs[i].1.view_value()))
}

/// Whether no two pairs share a key.
pub open spec fn keys_unique(pairs: Seq<(Seq<char>, SpecValue)>) -> bool {
    forall|i: int, j: int| 0 <= i < j < pairs.len() ==> pairs[i].0 != pairs[j].0
}

/// The model of an array is the sequence of its elements' models.
pub proof fn lemma_array_view<'a>(items: Vec<Value<'a>>)
    ensures
        Value::Array(items).view_value() == SpecValue::Array(views(items@)),
{
    let sv = Value::Array(items).view_value();
    assert(sv->Array_0 =~= views(items@));
}

/// The model of an object is the sequence of its pairs' models.
pub proof fn lemma_object_view<'a>(pairs: Vec<(Text<'a>, Value<'a>)>)
    ensures
        Value::Object(pairs).view_value() == SpecValue::Object(pair_views(pairs@)),
{
    let sv = Value::Object(pairs).view_value();
    assert(sv->Object_0 =~= pair_views(pairs@));
}

} // verus!
