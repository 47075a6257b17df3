//! The serde data model as plain values, and the variables rendered from it.

use vstd::prelude::*;
use vstd::string::*;

use crate::text::push_char;

verus! {

/// A value in serde's data model, as the serializers of this crate see it.
///
/// `Option::Some`, newtype structs and sequences, tuples and tuple structs are
/// not told apart: the serializers treat each of them like its content, or
/// like a sequence. A floating-point number arrives as its decimal text.
#[derive(Debug)]
pub enum Value {
    Bool(bool),
    I64(i64),
    U64(u64),
    Float(String),
    Char(char),
    Str(String),
    Bytes(Vec<u8>),
    /// `None` and `()`.
    Unit,
    /// A unit struct, by its name.
    UnitStruct(String),
    /// A unit variant, by its variant name.
    UnitVariant(String),
    /// A newtype variant: variant name and content.
    NewtypeVariant(String, Box<Value>),
    /// A sequence, tuple or tuple struct.
    Sequence(Vec<Value>),
    /// A tuple variant: variant name and fields.
    TupleVariant(String, Vec<Value>),
    /// A map, as its entries in the order they were given.
    Mapping(Vec<(Value, Value)>),
    /// A struct: field names and values.
    Struct(Vec<(String, Value)>),
    /// A struct variant: variant name, field names and values.
    StructVariant(String, Vec<(String, Value)>),
}

/// One environment variable: its key and its value.
#[derive(Debug)]
pub struct EnvVar {
    pub key: String,
    pub value: String,
}

impl View for EnvVar {
    type V = (Seq<char>, Seq<char>);

    open spec fn view(&self) -> (Seq<char>, Seq<char>) {
        (self.key@, self.value@)
    }
}

/// The key/value pairs of a list of variables.
pub open spec fn pairs(vars: Seq<EnvVar>) -> Seq<(Seq<char>, Seq<char>)> {
    vars.map_values(|e: EnvVar| e@)
}

/// An optional string, by its characters.
pub open spec fn opt_chars(o: Option<String>) -> Option<Seq<char>> {
    match o {
        Some(s) => Some(s@),
        None => None,
    }
}

/// The key of a struct field below `parent`: the field's name joined to the
/// parent key by `_`, or the name alone when the parent key is empty.
pub open spec fn field_key(parent: Seq<char>, name: Seq<char>) -> Seq<char> {
    if parent.len() == 0 {
        name
    } else {
        parent + seq!['_'] + name
    }
}

/// `a`, `_` and `b` joined.
pub open spec fn underscore(a: Seq<char>, b: Seq<char>) -> Seq<char> {
    a + seq!['_'] + b
}

/// Pushing a variable adds its pair at the end.
pub proof fn lemma_pairs_push(vars: Seq<EnvVar>, e: EnvVar)
    ensures
        pairs(vars.push(e)) == pairs(vars).push(e@),
{
    assert(pairs(vars.push(e)) =~= pairs(vars).push(e@));
}

/// Builds [`field_key`].
pub fn make_field_key(parent: &String, name: &String) -> (k: String)
    ensures
        k@ == field_key(parent@, name@),
{
    if parent.as_str().is_empty() {
        name.clone()
    } else {
        let mut k = parent.clone();
        push_char(&mut k, '_');
        k.append(name.as_str());
        k
    }
}

} // verus!
