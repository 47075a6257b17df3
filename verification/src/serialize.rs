//! Setting a struct's fields as process environment variables.
//!
//! Each field that has a text becomes a variable named, in upper case, after
//! its path below the prefix. Only structs, scalars other than byte strings,
//! unit values and newtype variants can be serialized this way.

use vstd::prelude::*;
use vstd::string::*;

use crate::text::{decimal, i64_text, push_char, signed_decimal, u64_text, upper_text, uppercase};
use crate::value::{field_key, lemma_pairs_push, make_field_key, opt_chars, pairs, EnvVar, Value};

verus! {

/// Whether the environment serializer handles `v`: sequences, tuples, maps,
/// byte strings, tuple variants and struct variants it does not.
pub open spec fn env_supported(v: Value) -> bool
    decreases v,
{
    match v {
        Value::Bytes(_) => false,
        Value::NewtypeVariant(_, inner) => env_supported(*inner),
        Value::Sequence(_) => false,
        Value::TupleVariant(_, _) => false,
        Value::Mapping(_) => false,
        Value::Struct(fields) => fields_supported(fields@),
        Value::StructVariant(_, _) => false,
        _ => true,
    }
}

/// Whether the environment serializer handles every field.
pub open spec fn fields_supported(fields: Seq<(String, Value)>) -> bool
    decreases fields,
{
    if fields.len() == 0 {
        true
    } else {
        fields_supported(fields.subrange(0, fields.len() - 1)) && env_supported(
            fields[fields.len() - 1].1,
        )
    }
}

/// The text of a value as the environment serializer gives it: `true` is
/// `1`, `false` is `2`; unit values and structs have none; a newtype variant
/// has its content's.
pub open spec fn env_text(v: Value) -> Option<Seq<char>>
    decreases v,
{
    match v {
        Value::Bool(b) => Some(
            if b {
                seq!['1']
            } else {
                seq!['2']
            },
        ),
        Value::I64(i) => Some(signed_decimal(i as int)),
        Value::U64(u) => Some(decimal(u as nat)),
        Value::Float(s) => Some(s@),
        Value::Char(c) => Some(seq![c]),
        Value::Str(s) => Some(s@),
        Value::NewtypeVariant(_, inner) => env_text(*inner),
        _ => None,
    }
}

/// The variables, with upper-case keys, that serializing `v` under `key`
/// sets, in order.
pub open spec fn env_assignments(v: Value, key: Seq<char>) -> Seq<(Seq<char>, Seq<char>)>
    decreases v,
{
    match v {
        Value::NewtypeVariant(_, inner) => env_assignments(*inner, key),
        Value::Struct(fields) => env_field_assignments(fields@, key),
        _ => seq![],
    }
}

/// The variables that a struct's fields set: each field is serialized under
/// its own key, then, if it has a text, set under that key in upper case.
pub open spec fn env_field_assignments(fields: Seq<(String, Value)>, key: Seq<char>) -> Seq<
    (Seq<char>, Seq<char>),
>
    decreases fields,
{
    if fields.len() == 0 {
        seq![]
    } else {
        let f = fields[fields.len() - 1];
        let k = field_key(key, f.0@);
        env_field_assignments(fields.subrange(0, fields.len() - 1), key) + env_assignments(f.1, k)
            + match env_text(f.1) {
            Some(t) => seq![(uppercase(k), t)],
            None => seq![],
        }
    }
}

/// A field holding a struct (or a unit value) sets exactly what that value
/// sets under the field's key. So serializing with prefix `p` sets what
/// serializing, without prefix, a struct with the one field `p` holding the
/// value sets.
pub proof fn law_field_is_prefix(w: Value, name: String, v: Value, key: Seq<char>)
    requires
        w matches Value::Struct(fields) && fields@ == seq![(name, v)],
        env_text(v) is None,
    ensures
        env_assignments(w, key) == env_assignments(v, field_key(key, name@)),
{
    let fields = w->Struct_0@;
    assert(fields.len() == 1 && fields[0] == (name, v));
    assert(fields.subrange(0, 0) =~= Seq::<(String, Value)>::empty());
    assert(env_field_assignments(fields.subrange(0, 0), key) == Seq::<(Seq<char>, Seq<char>)>::empty());
    assert(env_assignments(w, key) == env_field_assignments(fields, key));
    assert(env_field_assignments(fields, key) =~= env_assignments(v, field_key(key, name@)));
}

proof fn lemma_env_field_contains(fields: Seq<(String, Value)>, key: Seq<char>, i: int, t: Seq<char>)
    requires
        0 <= i < fields.len(),
        env_text(fields[i].1) == Some(t),
    ensures
        env_field_assignments(fields, key).contains((uppercase(field_key(key, fields[i].0@)), t)),
    decreases fields.len(),
{
    let n = fields.len();
    let prefix = fields.subrange(0, n - 1);
    let all = env_field_assignments(fields, key);
    if i == n - 1 {
        assert(all[all.len() - 1] == (uppercase(field_key(key, fields[i].0@)), t));
    } else {
        assert(prefix[i] == fields[i]);
        lemma_env_field_contains(prefix, key, i, t);
        let before = env_field_assignments(prefix, key);
        let j = choose|j: int|
            0 <= j < before.len() && before[j] == (uppercase(field_key(key, fields[i].0@)), t);
        assert(all[j] == before[j]);
    }
}

/// Field keys depend on the struct's own key and the field's name only:
/// every field of a struct that has a text is set, under the upper-cased
/// `field_key(key, name)`, to that text, whatever its sibling fields hold.
pub proof fn law_env_field_set_under_its_key(w: Value, key: Seq<char>, i: int, t: Seq<char>)
    requires
        w matches Value::Struct(fields) && 0 <= i < fields@.len() && env_text(fields@[i].1) == Some(t),
    ensures
        env_assignments(w, key).contains((uppercase(field_key(key, w->Struct_0@[i].0@)), t)),
{
    lemma_env_field_contains(w->Struct_0@, key, i, t);
}

/// The text of every scalar, set as a struct's only field: a boolean as `1`
/// (true) or `2` (false), integers in decimal with a sign when negative, a
/// float as the text it came with, a character and a string as themselves;
/// unit values, unit structs and unit variants set nothing.
pub proof fn law_env_scalar_field(w: Value, name: String, x: Value, key: Seq<char>)
    requires
        w matches Value::Struct(fields) && fields@ == seq![(name, x)],
    ensures
        x matches Value::Bool(b) ==> env_assignments(w, key) == seq![
            (
                uppercase(field_key(key, name@)),
                if b {
                    seq!['1']
                } else {
                    seq!['2']
                },
            ),
        ],
        x matches Value::I64(i) ==> env_assignments(w, key) == seq![
            (uppercase(field_key(key, name@)), signed_decimal(i as int)),
        ],
        x matches Value::U64(u) ==> env_assignments(w, key) == seq![
            (uppercase(field_key(key, name@)), decimal(u as nat)),
        ],
        x matches Value::Float(f) ==> env_assignments(w, key) == seq![
            (uppercase(field_key(key, name@)), f@),
        ],
        x matches Value::Char(c) ==> env_assignments(w, key) == seq![
            (uppercase(field_key(key, name@)), seq![c]),
        ],
        x matches Value::Str(st) ==> env_assignments(w, key) == seq![
            (uppercase(field_key(key, name@)), st@),
        ],
        x is Unit || x is UnitStruct || x is UnitVariant ==> env_assignments(w, key) == Seq::<
            (Seq<char>, Seq<char>),
        >::empty(),
{
    let fields = w->Struct_0@;
    assert(fields.len() == 1 && fields[0] == (name, x));
    assert(fields[fields.len() - 1] == (name, x));
    assert(fields.subrange(0, 0) =~= Seq::<(String, Value)>::empty());
    assert(env_field_assignments(fields.subrange(0, 0), key) == Seq::<(Seq<char>, Seq<char>)>::empty());
    let k = field_key(key, name@);
    assert(env_assignments(w, key) == env_field_assignments(fields, key));
    assert(env_assignments(w, key) =~= env_assignments(x, k) + match env_text(x) {
        Some(t) => seq![(uppercase(k), t)],
        None => seq![],
    });
}

/// A newtype variant is its content: it sets exactly what its content sets,
/// under the same key, and has its content's text.
pub proof fn law_env_newtype_variant_is_content(w: Value, inner: Value, key: Seq<char>)
    requires
        w matches Value::NewtypeVariant(n, b) && *b == inner,
    ensures
        env_assignments(w, key) == env_assignments(inner, key),
        env_text(w) == env_text(inner),
        env_supported(w) == env_supported(inner),
{
}

/// Adding a field to a struct adds, after what the struct set before,
/// exactly what the new field sets: its value under
/// `field_key(key, name)`, then the field itself, upper-cased, if it has a
/// text. Earlier fields do not change the key of later ones.
pub proof fn law_env_struct_push_field(w1: Value, w2: Value, name: String, x: Value, key: Seq<char>)
    requires
        w1 matches Value::Struct(f1),
        w2 matches Value::Struct(f2),
        w2->Struct_0@ == w1->Struct_0@.push((name, x)),
    ensures
        env_assignments(w2, key) == env_assignments(w1, key) + env_assignments(
            x,
            field_key(key, name@),
        ) + match env_text(x) {
            Some(t) => seq![(uppercase(field_key(key, name@)), t)],
            None => Seq::<(Seq<char>, Seq<char>)>::empty(),
        },
{
    let f2 = w2->Struct_0@;
    assert(f2.subrange(0, f2.len() - 1) =~= w1->Struct_0@);
    assert(f2[f2.len() - 1] == (name, x));
    assert(env_assignments(w2, key) == env_field_assignments(f2, key));
    assert(env_assignments(w1, key) == env_field_assignments(w1->Struct_0@, key));
}

/// The errors of the environment serializer: there are none, and no value
/// of this type can be made.
#[derive(Debug)]
pub struct Error(core::convert::Infallible);

/// Sets the fields of a struct as process environment variables, under a
/// key prefix.
pub struct EnvSerializer {
    path: String,
    seperator: String,
}

impl Default for EnvSerializer {
    fn default() -> (s: Self)
        ensures
            s.prefix_chars() == Seq::<char>::empty(),
            s.separator_chars() == seq![' '],
    {
        let mut seperator = String::new();
        push_char(&mut seperator, ' ');
        assert(seperator@ =~= seq![' ']);
        Self { path: String::new(), seperator }
    }
}

/// Whether the environment serializer handles `v`.
pub fn supports(v: &Value) -> (b: bool)
    ensures
        b == env_supported(*v),
    decreases v,
{
    match v {
        Value::Bytes(_) => false,
        Value::NewtypeVariant(_, inner) => supports(inner),
        Value::Sequence(_) => false,
        Value::TupleVariant(_, _) => false,
        Value::Mapping(_) => false,
        Value::StructVariant(_, _) => false,
        Value::Struct(fields) => {
            let mut i: usize = 0;
            while i < fields.len()
                invariant
                    *v == Value::Struct(*fields),
                    i <= fields.len(),
                    fields_supported(fields@.take(i as int)),
                decreases fields.len() - i,
            {
                proof {
                    assert(decreases_to!(*v => v->Struct_0));
                    assert(decreases_to!(*fields => fields@));
                    assert(decreases_to!(fields@ => fields@[i as int]));
                    assert(decreases_to!(fields@[i as int] => fields@[i as int].1));
                    assert(fields@.take(i + 1).subrange(0, i as int) =~= fields@.take(i as int));
                }
                if !supports(&fields[i].1) {
                    proof {
                        lemma_fields_supported_prefix(fields@, i as int + 1);
                    }
                    return false;
                }
                i = i + 1;
            }
            assert(fields@.take(fields.len() as int) =~= fields@);
            true
        },
        _ => true,
    }
}

/// Every field of a supported prefix is supported, so a prefix with an
/// unsupported last field is not.
proof fn lemma_fields_supported_prefix(fields: Seq<(String, Value)>, n: int)
    requires
        0 < n <= fields.len(),
        !env_supported(fields[n - 1].1),
    ensures
        !fields_supported(fields),
    decreases fields.len(),
{
    if n < fields.len() {
        lemma_fields_supported_prefix(fields.subrange(0, fields.len() - 1), n);
    }
}

impl EnvSerializer {
    /// The key under which the struct's fields are named.
    pub closed spec fn prefix_chars(self) -> Seq<char> {
        self.path@
    }

    /// The separator the serializer was given.
    pub closed spec fn separator_chars(self) -> Seq<char> {
        self.seperator@
    }

    /// A serializer with no prefix and a space as separator.
    pub fn new() -> (s: Self)
        ensures
            s.prefix_chars() == Seq::<char>::empty(),
            s.separator_chars() == seq![' '],
    {
        Self::default()
    }

    /// The serializer with its separator set to `separator`.
    pub fn with_separator(self, separator: &str) -> (s: Self)
        ensures
            s.prefix_chars() == self.prefix_chars(),
            s.separator_chars() == separator@,
    {
        Self { seperator: separator.to_owned(), ..self }
    }

    /// The serializer with its prefix set to `prefix`.
    pub fn with_prefix(self, prefix: &str) -> (s: Self)
        ensures
            s.prefix_chars() == prefix@,
            s.separator_chars() == self.separator_chars(),
    {
        Self { path: prefix.to_owned(), ..self }
    }

    /// The variables to set for `value`, in the order they are set, with
    /// upper-case keys.
    pub fn serialize(&self, value: &Value) -> (vars: Vec<EnvVar>)
        requires
            env_supported(*value),
        ensures
            pairs(vars@) == env_assignments(*value, self.prefix_chars()),
    {
        let mut vars: Vec<EnvVar> = Vec::new();
        let _ = Self::emit(value, &self.path, &mut vars);
        assert(pairs(vars@) =~= env_assignments(*value, self.path@));
        vars
    }

    /// Serializes `v` under `key`: appends the variables it sets to `out`
    /// and returns its text.
    fn emit(v: &Value, key: &String, out: &mut Vec<EnvVar>) -> (t: Option<String>)
        requires
            env_supported(*v),
        ensures
            pairs(final(out)@) == pairs(old(out)@) + env_assignments(*v, key@),
            opt_chars(t) == env_text(*v),
        decreases v,
    {
        let ghost start = pairs(out@);
        let t = match v {
            Value::Bool(b) => {
                let mut s = String::new();
                push_char(&mut s, if *b { '1' } else { '2' });
                assert(s@ =~= if *b { seq!['1'] } else { seq!['2'] });
                Some(s)
            },
            Value::I64(i) => Some(i64_text(*i)),
            Value::U64(u) => Some(u64_text(*u)),
            Value::Float(s) => Some(s.clone()),
            Value::Char(c) => {
                let mut s = String::new();
                push_char(&mut s, *c);
                assert(s@ =~= seq![*c]);
                Some(s)
            },
            Value::Str(s) => Some(s.clone()),
            Value::NewtypeVariant(_, inner) => Self::emit(inner, key, out),
            Value::Struct(fields) => {
                let mut i: usize = 0;
                while i < fields.len()
                    invariant
                        *v == Value::Struct(*fields),
                        fields_supported(fields@),
                        i <= fields.len(),
                        pairs(out@) == start + env_field_assignments(fields@.take(i as int), key@),
                    decreases fields.len() - i,
                {
                    proof {
                        assert(decreases_to!(*v => v->Struct_0));
                        assert(decreases_to!(*fields => fields@));
                        assert(decreases_to!(fields@ => fields@[i as int]));
                        assert(decreases_to!(fields@[i as int] => fields@[i as int].1));
                        assert(fields@.take(i + 1).subrange(0, i as int) =~= fields@.take(i as int));
                        lemma_fields_supported_each(fields@, i as int);
                    }
                    let f = &fields[i];
                    let k = make_field_key(key, &f.0);
                    let t = Self::emit(&f.1, &k, out);
                    match t {
                        Some(t) => {
                            let e = EnvVar { key: upper_text(k.as_str()), value: t };
                            proof {
                                lemma_pairs_push(out@, e);
                            }
                            out.push(e);
                        },
                        None => {},
                    }
                    i = i + 1;
                }
                assert(fields@.take(fields.len() as int) =~= fields@);
                None
            },
            _ => None,
        };
        assert(pairs(out@) =~= start + env_assignments(*v, key@));
        t
    }
}

/// Each field of a supported list of fields is supported.
proof fn lemma_fields_supported_each(fields: Seq<(String, Value)>, i: int)
    requires
        fields_supported(fields),
        0 <= i < fields.len(),
    ensures
        env_supported(fields[i].1),
    decreases fields.len(),
{
    if i < fields.len() - 1 {
        lemma_fields_supported_each(fields.subrange(0, fields.len() - 1), i);
    }
}

} // verus!
