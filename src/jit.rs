//! The two-word value convention at the native-code boundary: a tag and a
//! 64-bit payload.

use vstd::prelude::*;
use crate::object::{Object, TaggedValue};
use crate::symbol::Symbol;

verus! {

/// The kind of value that a payload word holds.
#[derive(Debug, Clone, Copy, PartialEq, Eq)]
pub enum Tag {
    Undef,
    Null,
    Integer,
    Float,
    Symbol,
    Function,
}

/// The value that `tag` and the payload `val` stand for: an integer is the
/// word itself, a float its bit pattern, a symbol its index in the symbol
/// table, a function its code address.
pub open spec fn tagged_spec(tag: Tag, val: i64) -> TaggedValue {
    match tag {
        Tag::Undef => TaggedValue::Undef,
        Tag::Null => TaggedValue::Nil,
        Tag::Integer => TaggedValue::Integer(val),
        Tag::Float => TaggedValue::Float(val as u64),
        Tag::Symbol => TaggedValue::Symbol(Symbol { id: val as usize }),
        Tag::Function => TaggedValue::Function(val as usize),
    }
}

impl Object {
    /// The object for a tagged payload word.
    pub fn from_tagged(tag: Tag, val: i64) -> (r: Object)
        ensures
            r.content == tagged_spec(tag, val),
    {
        match tag {
            Tag::Undef => Object::undef(),
            Tag::Null => Object::nil(),
            Tag::Integer => Object::integer(val),
            Tag::Float => Object::float(val as u64),
            Tag::Symbol => Object::from_symbol(Symbol { id: val as usize }),
            Tag::Function => Object::function(val as usize),
        }
    }
}

} // verus!
