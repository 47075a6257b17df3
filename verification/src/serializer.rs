//! Writing a value as a `.env` file: one `KEY=value` line per variable.
//!
//! A struct's fields become variables named after their path below the
//! prefix; sequences and tuples are joined into one quoted value; variants
//! carry their name in front of their content; maps give one variable per
//! entry.

use vstd::prelude::*;
use vstd::string::*;

use crate::text::{
    decimal, hex_lower, hex_text, i64_text, push_char, signed_decimal, u64_text, upper_text, uppercase,
};
use crate::value::{
    field_key, lemma_pairs_push, make_field_key, opt_chars, pairs, underscore, EnvVar, Value,
};

verus! {

/// The text that a value hands to its container, if it has one: scalars and
/// unit structs and variants have one, and a newtype variant has its
/// content's text after the variant name.
pub open spec fn value_text(v: Value) -> Option<Seq<char>>
    decreases v,
{
    match v {
        Value::Bool(b) => Some(
            if b {
                seq!['0']
            } else {
                seq!['1']
            },
        ),
        Value::I64(i) => Some(signed_decimal(i as int)),
        Value::U64(u) => Some(decimal(u as nat)),
        Value::Float(s) => Some(s@),
        Value::Char(c) => Some(seq![c]),
        Value::Str(s) => Some(s@),
        Value::Bytes(b) => Some(hex_lower(b@)),
        Value::Unit => None,
        Value::UnitStruct(n) => Some(n@),
        Value::UnitVariant(n) => Some(n@),
        Value::NewtypeVariant(var, inner) => match value_text(*inner) {
            Some(t) => Some(underscore(var@, t)),
            None => None,
        },
        _ => None,
    }
}

/// The texts of the elements that have one, in order.
pub open spec fn texts(items: Seq<Value>) -> Seq<Seq<char>>
    decreases items.len(),
{
    if items.len() == 0 {
        seq![]
    } else {
        let rest = texts(items.drop_last());
        match value_text(items.last()) {
            Some(t) => rest.push(t),
            None => rest,
        }
    }
}

/// The parts joined, with `sep` between two neighbours.
pub open spec fn join(parts: Seq<Seq<char>>, sep: Seq<char>) -> Seq<char>
    decreases parts.len(),
{
    if parts.len() == 0 {
        seq![]
    } else if parts.len() == 1 {
        parts[0]
    } else {
        join(parts.drop_last(), sep) + sep + parts.last()
    }
}

/// The variable of a sequence: its elements' texts joined and quoted, or none
/// when no element has a text.
pub open spec fn sequence_var(key: Seq<char>, parts: Seq<Seq<char>>, sep: Seq<char>) -> Seq<
    (Seq<char>, Seq<char>),
> {
    if parts.len() == 0 {
        seq![]
    } else {
        seq![(key, seq!['"'] + join(parts, sep) + seq!['"'])]
    }
}

/// The variable of a tuple variant: the variant name and its fields' texts,
/// all joined by `_`, or none when no field has a text.
pub open spec fn tuple_variant_var(key: Seq<char>, variant: Seq<char>, parts: Seq<Seq<char>>) -> Seq<
    (Seq<char>, Seq<char>),
> {
    if parts.len() == 0 {
        seq![]
    } else {
        seq![(key, underscore(variant, join(parts, seq!['_'])))]
    }
}

/// The index of the last assignment to `k`, or -1.
pub open spec fn position(assigned: Seq<(Seq<char>, Seq<char>)>, k: Seq<char>) -> int
    decreases assigned.len(),
{
    if assigned.len() == 0 {
        -1
    } else if assigned.last().0 == k {
        assigned.len() - 1
    } else {
        position(assigned.drop_last(), k)
    }
}

/// Assigns `x` to `k`: in place if `k` is assigned already, else at the end.
pub open spec fn upsert(assigned: Seq<(Seq<char>, Seq<char>)>, k: Seq<char>, x: Seq<char>) -> Seq<
    (Seq<char>, Seq<char>),
> {
    let i = position(assigned, k);
    if i < 0 {
        assigned.push((k, x))
    } else {
        assigned.update(i, (k, x))
    }
}

/// What a map holds after its entries are inserted in order: each key with
/// text, with the value text of its last entry, in the order keys first came.
/// Entries whose key or value has no text are left out.
pub open spec fn assignments(entries: Seq<(Value, Value)>) -> Seq<(Seq<char>, Seq<char>)>
    decreases entries.len(),
{
    if entries.len() == 0 {
        seq![]
    } else {
        let acc = assignments(entries.drop_last());
        match (value_text(entries.last().0), value_text(entries.last().1)) {
            (Some(k), Some(x)) => upsert(acc, k, x),
            _ => acc,
        }
    }
}

/// The variables of a map's assignments, each keyed `key_k`.
pub open spec fn map_vars(key: Seq<char>, assigned: Seq<(Seq<char>, Seq<char>)>) -> Seq<
    (Seq<char>, Seq<char>),
> {
    assigned.map_values(|p: (Seq<char>, Seq<char>)| (underscore(key, p.0), p.1))
}

/// The variables that rendering `v` under `key` writes, in order, before
/// upper-casing the keys; `sep` separates the elements of sequences.
pub open spec fn entries(v: Value, key: Seq<char>, sep: Seq<char>) -> Seq<(Seq<char>, Seq<char>)>
    decreases v,
{
    match v {
        Value::NewtypeVariant(_, inner) => entries(*inner, key, sep),
        Value::Sequence(items) => element_entries(items@, key, sep) + sequence_var(
            key,
            texts(items@),
            sep,
        ),
        Value::TupleVariant(var, items) => element_entries(items@, key, sep) + tuple_variant_var(
            key,
            var@,
            texts(items@),
        ),
        Value::Mapping(es) => mapping_entries(es@, key, sep) + map_vars(key, assignments(es@)),
        Value::Struct(fields) => field_entries(fields@, key, sep),
        Value::StructVariant(var, fields) => variant_field_entries(fields@, var@, key, sep),
        _ => seq![],
    }
}

/// The variables that the elements write, in order.
pub open spec fn element_entries(items: Seq<Value>, key: Seq<char>, sep: Seq<char>) -> Seq<
    (Seq<char>, Seq<char>),
>
    decreases items,
{
    if items.len() == 0 {
        seq![]
    } else {
        element_entries(items.subrange(0, items.len() - 1), key, sep) + entries(
            items[items.len() - 1],
            key,
            sep,
        )
    }
}

/// The variables that the keys and values of map entries write, in order.
pub open spec fn mapping_entries(es: Seq<(Value, Value)>, key: Seq<char>, sep: Seq<char>) -> Seq<
    (Seq<char>, Seq<char>),
>
    decreases es,
{
    if es.len() == 0 {
        seq![]
    } else {
        let e = es[es.len() - 1];
        mapping_entries(es.subrange(0, es.len() - 1), key, sep) + entries(e.0, key, sep) + entries(
            e.1,
            key,
            sep,
        )
    }
}

/// The variables that a struct's fields write: each field renders under its
/// own key, then, if it has a text, is written itself under that key.
pub open spec fn field_entries(fields: Seq<(String, Value)>, key: Seq<char>, sep: Seq<char>) -> Seq<
    (Seq<char>, Seq<char>),
>
    decreases fields,
{
    if fields.len() == 0 {
        seq![]
    } else {
        let f = fields[fields.len() - 1];
        let k = field_key(key, f.0@);
        field_entries(fields.subrange(0, fields.len() - 1), key, sep) + entries(f.1, k, sep)
            + match value_text(f.1) {
            Some(t) => seq![(k, t)],
            None => seq![],
        }
    }
}

/// The variables that a struct variant's fields write: each field renders
/// under the variant's own key, then, if it has a text, is written under
/// `key_variant_field`.
pub open spec fn variant_field_entries(
    fields: Seq<(String, Value)>,
    variant: Seq<char>,
    key: Seq<char>,
    sep: Seq<char>,
) -> Seq<(Seq<char>, Seq<char>)>
    decreases fields,
{
    if fields.len() == 0 {
        seq![]
    } else {
        let f = fields[fields.len() - 1];
        variant_field_entries(fields.subrange(0, fields.len() - 1), variant, key, sep) + entries(
            f.1,
            key,
            sep,
        ) + match value_text(f.1) {
            Some(t) => seq![(underscore(underscore(key, variant), f.0@), t)],
            None => seq![],
        }
    }
}

/// One line of a `.env` file: the key in upper case, `=`, the value.
pub open spec fn env_line(var: (Seq<char>, Seq<char>)) -> Seq<char> {
    uppercase(var.0) + seq!['='] + var.1 + seq!['\n']
}

/// The lines of the variables, in order.
pub open spec fn env_text(vars: Seq<(Seq<char>, Seq<char>)>) -> Seq<char>
    decreases vars.len(),
{
    if vars.len() == 0 {
        seq![]
    } else {
        env_text(vars.drop_last()) + env_line(vars.last())
    }
}

/// Whether every variable's key starts with `key`.
pub open spec fn keys_under(vars: Seq<(Seq<char>, Seq<char>)>, key: Seq<char>) -> bool {
    forall|i: int| 0 <= i < vars.len() ==> key.is_prefix_of(#[trigger] vars[i].0)
}

proof fn lemma_prefix_trans(a: Seq<char>, b: Seq<char>, c: Seq<char>)
    requires
        a.is_prefix_of(b),
        b.is_prefix_of(c),
    ensures
        a.is_prefix_of(c),
{
    assert forall|i: int| 0 <= i < a.len() implies a[i] == c[i] by {
        assert(a[i] == b.subrange(0, a.len() as int)[i]);
        assert(b[i] == c.subrange(0, b.len() as int)[i]);
    }
    assert(a =~= c.subrange(0, a.len() as int));
}

proof fn lemma_prefix_extend(a: Seq<char>, x: Seq<char>)
    ensures
        a.is_prefix_of(a + x),
{
    assert(a =~= (a + x).subrange(0, a.len() as int));
}

proof fn lemma_under_concat(a: Seq<(Seq<char>, Seq<char>)>, b: Seq<(Seq<char>, Seq<char>)>, key: Seq<char>)
    requires
        keys_under(a, key),
        keys_under(b, key),
    ensures
        keys_under(a + b, key),
{
    assert forall|i: int| 0 <= i < (a + b).len() implies key.is_prefix_of(#[trigger] (a + b)[i].0) by {
        if i < a.len() {
            assert((a + b)[i] == a[i]);
        } else {
            assert((a + b)[i] == b[i - a.len()]);
        }
    }
}

proof fn lemma_under_widen(vars: Seq<(Seq<char>, Seq<char>)>, inner: Seq<char>, key: Seq<char>)
    requires
        keys_under(vars, inner),
        key.is_prefix_of(inner),
    ensures
        keys_under(vars, key),
{
    assert forall|i: int| 0 <= i < vars.len() implies key.is_prefix_of(#[trigger] vars[i].0) by {
        lemma_prefix_trans(key, inner, vars[i].0);
    }
}

proof fn lemma_field_key_under(key: Seq<char>, name: Seq<char>)
    ensures
        key.is_prefix_of(field_key(key, name)),
        key.is_prefix_of(underscore(key, name)),
{
    lemma_prefix_extend(key, seq!['_'] + name);
    assert(underscore(key, name) =~= key + (seq!['_'] + name));
    if key.len() == 0 {
        assert(key =~= name.subrange(0, 0));
    }
}

/// Namespacing: every variable that a value renders to under `key` has a
/// key that starts with `key`; so a prefix keeps all the variables of a
/// value apart from those of values under other prefixes.
pub proof fn law_keys_under_prefix(v: Value, key: Seq<char>, sep: Seq<char>)
    ensures
        keys_under(entries(v, key, sep), key),
    decreases v,
{
    match v {
        Value::NewtypeVariant(_, inner) => {
            law_keys_under_prefix(*inner, key, sep);
        },
        Value::Sequence(items) => {
            lemma_elements_under(items@, key, sep);
            lemma_prefix_extend(key, seq![]);
            assert(key + seq![] =~= key);
            lemma_under_concat(
                element_entries(items@, key, sep),
                sequence_var(key, texts(items@), sep),
                key,
            );
        },
        Value::TupleVariant(var, items) => {
            lemma_elements_under(items@, key, sep);
            lemma_prefix_extend(key, seq![]);
            assert(key + seq![] =~= key);
            lemma_under_concat(
                element_entries(items@, key, sep),
                tuple_variant_var(key, var@, texts(items@)),
                key,
            );
        },
        Value::Mapping(es) => {
            lemma_mapping_under(es@, key, sep);
            let assigned = assignments(es@);
            assert forall|i: int| 0 <= i < map_vars(key, assigned).len() implies key.is_prefix_of(
                #[trigger] map_vars(key, assigned)[i].0,
            ) by {
                lemma_field_key_under(key, assigned[i].0);
            }
            lemma_under_concat(mapping_entries(es@, key, sep), map_vars(key, assigned), key);
        },
        Value::Struct(fields) => {
            lemma_fields_under(fields@, key, sep);
        },
        Value::StructVariant(var, fields) => {
            lemma_variant_fields_under(fields@, var@, key, sep);
        },
        _ => {},
    }
}

proof fn lemma_elements_under(items: Seq<Value>, key: Seq<char>, sep: Seq<char>)
    ensures
        keys_under(element_entries(items, key, sep), key),
    decreases items,
{
    if items.len() > 0 {
        let prefix = items.subrange(0, items.len() - 1);
        lemma_elements_under(prefix, key, sep);
        law_keys_under_prefix(items[items.len() - 1], key, sep);
        lemma_under_concat(
            element_entries(prefix, key, sep),
            entries(items[items.len() - 1], key, sep),
            key,
        );
    }
}

proof fn lemma_mapping_under(es: Seq<(Value, Value)>, key: Seq<char>, sep: Seq<char>)
    ensures
        keys_under(mapping_entries(es, key, sep), key),
    decreases es,
{
    if es.len() > 0 {
        let prefix = es.subrange(0, es.len() - 1);
        let e = es[es.len() - 1];
        lemma_mapping_under(prefix, key, sep);
        law_keys_under_prefix(e.0, key, sep);
        law_keys_under_prefix(e.1, key, sep);
        lemma_under_concat(mapping_entries(prefix, key, sep), entries(e.0, key, sep), key);
        lemma_under_concat(
            mapping_entries(prefix, key, sep) + entries(e.0, key, sep),
            entries(e.1, key, sep),
            key,
        );
    }
}

proof fn lemma_fields_under(fields: Seq<(String, Value)>, key: Seq<char>, sep: Seq<char>)
    ensures
        keys_under(field_entries(fields, key, sep), key),
    decreases fields,
{
    if fields.len() > 0 {
        let prefix = fields.subrange(0, fields.len() - 1);
        let f = fields[fields.len() - 1];
        let k = field_key(key, f.0@);
        lemma_fields_under(prefix, key, sep);
        law_keys_under_prefix(f.1, k, sep);
        lemma_field_key_under(key, f.0@);
        lemma_under_widen(entries(f.1, k, sep), k, key);
        let own: Seq<(Seq<char>, Seq<char>)> = match value_text(f.1) {
            Some(t) => seq![(k, t)],
            None => seq![],
        };
        assert(keys_under(own, key));
        lemma_under_concat(field_entries(prefix, key, sep), entries(f.1, k, sep), key);
        lemma_under_concat(field_entries(prefix, key, sep) + entries(f.1, k, sep), own, key);
    }
}

proof fn lemma_variant_fields_under(
    fields: Seq<(String, Value)>,
    variant: Seq<char>,
    key: Seq<char>,
    sep: Seq<char>,
)
    ensures
        keys_under(variant_field_entries(fields, variant, key, sep), key),
    decreases fields,
{
    if fields.len() > 0 {
        let prefix = fields.subrange(0, fields.len() - 1);
        let f = fields[fields.len() - 1];
        lemma_variant_fields_under(prefix, variant, key, sep);
        law_keys_under_prefix(f.1, key, sep);
        lemma_field_key_under(key, variant);
        lemma_field_key_under(underscore(key, variant), f.0@);
        lemma_prefix_trans(key, underscore(key, variant), underscore(underscore(key, variant), f.0@));
        let own: Seq<(Seq<char>, Seq<char>)> = match value_text(f.1) {
            Some(t) => seq![(underscore(underscore(key, variant), f.0@), t)],
            None => seq![],
        };
        assert(keys_under(own, key));
        lemma_under_concat(variant_field_entries(prefix, variant, key, sep), entries(f.1, key, sep), key);
        lemma_under_concat(
            variant_field_entries(prefix, variant, key, sep) + entries(f.1, key, sep),
            own,
            key,
        );
    }
}

/// A field holding a value that hands no text to its container (a struct,
/// sequence, map or unit value) renders exactly as that value does under
/// the field's key. So serializing a value with prefix `p` writes what
/// serializing, without prefix, a struct with the one field `p` holding that
/// value writes.
pub proof fn law_field_is_prefix(w: Value, name: String, v: Value, key: Seq<char>, sep: Seq<char>)
    requires
        w matches Value::Struct(fields) && fields@ == seq![(name, v)],
        value_text(v) is None,
    ensures
        entries(w, key, sep) == entries(v, field_key(key, name@), sep),
{
    let fields = w->Struct_0@;
    assert(fields.len() == 1 && fields[0] == (name, v));
    assert(fields.subrange(0, 0) =~= Seq::<(String, Value)>::empty());
    assert(field_entries(fields.subrange(0, 0), key, sep) == Seq::<(Seq<char>, Seq<char>)>::empty());
    assert(entries(w, key, sep) == field_entries(fields, key, sep));
    assert(field_entries(fields, key, sep) =~= entries(v, field_key(key, name@), sep));
}

/// The keys of the variables, in order.
pub open spec fn keys_of(vars: Seq<(Seq<char>, Seq<char>)>) -> Seq<Seq<char>> {
    vars.map_values(|e: (Seq<char>, Seq<char>)| e.0)
}

proof fn lemma_keys_concat(a: Seq<(Seq<char>, Seq<char>)>, b: Seq<(Seq<char>, Seq<char>)>)
    ensures
        keys_of(a + b) == keys_of(a) + keys_of(b),
{
    assert(keys_of(a + b) =~= keys_of(a) + keys_of(b));
}

/// The separator shapes values only: a value renders to variables with the
/// same keys, in the same order, whatever the separator.
pub proof fn law_separator_keeps_keys(v: Value, key: Seq<char>, s1: Seq<char>, s2: Seq<char>)
    ensures
        keys_of(entries(v, key, s1)) == keys_of(entries(v, key, s2)),
    decreases v,
{
    match v {
        Value::NewtypeVariant(_, inner) => {
            law_separator_keeps_keys(*inner, key, s1, s2);
        },
        Value::Sequence(items) => {
            lemma_elements_keys(items@, key, s1, s2);
            lemma_keys_concat(element_entries(items@, key, s1), sequence_var(key, texts(items@), s1));
            lemma_keys_concat(element_entries(items@, key, s2), sequence_var(key, texts(items@), s2));
            assert(keys_of(sequence_var(key, texts(items@), s1)) =~= keys_of(
                sequence_var(key, texts(items@), s2),
            ));
        },
        Value::TupleVariant(var, items) => {
            lemma_elements_keys(items@, key, s1, s2);
            lemma_keys_concat(
                element_entries(items@, key, s1),
                tuple_variant_var(key, var@, texts(items@)),
            );
            lemma_keys_concat(
                element_entries(items@, key, s2),
                tuple_variant_var(key, var@, texts(items@)),
            );
        },
        Value::Mapping(es) => {
            lemma_mapping_keys(es@, key, s1, s2);
            let vars = map_vars(key, assignments(es@));
            lemma_keys_concat(mapping_entries(es@, key, s1), vars);
            lemma_keys_concat(mapping_entries(es@, key, s2), vars);
        },
        Value::Struct(fields) => {
            lemma_fields_keys(fields@, key, s1, s2);
        },
        Value::StructVariant(var, fields) => {
            lemma_variant_fields_keys(fields@, var@, key, s1, s2);
        },
        _ => {},
    }
}

proof fn lemma_elements_keys(items: Seq<Value>, key: Seq<char>, s1: Seq<char>, s2: Seq<char>)
    ensures
        keys_of(element_entries(items, key, s1)) == keys_of(element_entries(items, key, s2)),
    decreases items,
{
    if items.len() > 0 {
        let prefix = items.subrange(0, items.len() - 1);
        let last = items[items.len() - 1];
        lemma_elements_keys(prefix, key, s1, s2);
        law_separator_keeps_keys(last, key, s1, s2);
        lemma_keys_concat(element_entries(prefix, key, s1), entries(last, key, s1));
        lemma_keys_concat(element_entries(prefix, key, s2), entries(last, key, s2));
    }
}

proof fn lemma_mapping_keys(es: Seq<(Value, Value)>, key: Seq<char>, s1: Seq<char>, s2: Seq<char>)
    ensures
        keys_of(mapping_entries(es, key, s1)) == keys_of(mapping_entries(es, key, s2)),
    decreases es,
{
    if es.len() > 0 {
        let prefix = es.subrange(0, es.len() - 1);
        let e = es[es.len() - 1];
        lemma_mapping_keys(prefix, key, s1, s2);
        law_separator_keeps_keys(e.0, key, s1, s2);
        law_separator_keeps_keys(e.1, key, s1, s2);
        lemma_keys_concat(mapping_entries(prefix, key, s1), entries(e.0, key, s1));
        lemma_keys_concat(mapping_entries(prefix, key, s2), entries(e.0, key, s2));
        lemma_keys_concat(
            mapping_entries(prefix, key, s1) + entries(e.0, key, s1),
            entries(e.1, key, s1),
        );
        lemma_keys_concat(
            mapping_entries(prefix, key, s2) + entries(e.0, key, s2),
            entries(e.1, key, s2),
        );
    }
}

proof fn lemma_fields_keys(fields: Seq<(String, Value)>, key: Seq<char>, s1: Seq<char>, s2: Seq<char>)
    ensures
        keys_of(field_entries(fields, key, s1)) == keys_of(field_entries(fields, key, s2)),
    decreases fields,
{
    if fields.len() > 0 {
        let prefix = fields.subrange(0, fields.len() - 1);
        let f = fields[fields.len() - 1];
        let k = field_key(key, f.0@);
        let own: Seq<(Seq<char>, Seq<char>)> = match value_text(f.1) {
            Some(t) => seq![(k, t)],
            None => seq![],
        };
        lemma_fields_keys(prefix, key, s1, s2);
        law_separator_keeps_keys(f.1, k, s1, s2);
        lemma_keys_concat(field_entries(prefix, key, s1), entries(f.1, k, s1));
        lemma_keys_concat(field_entries(prefix, key, s2), entries(f.1, k, s2));
        lemma_keys_concat(field_entries(prefix, key, s1) + entries(f.1, k, s1), own);
        lemma_keys_concat(field_entries(prefix, key, s2) + entries(f.1, k, s2), own);
    }
}

proof fn lemma_variant_fields_keys(
    fields: Seq<(String, Value)>,
    variant: Seq<char>,
    key: Seq<char>,
    s1: Seq<char>,
    s2: Seq<char>,
)
    ensures
        keys_of(variant_field_entries(fields, variant, key, s1)) == keys_of(
            variant_field_entries(fields, variant, key, s2),
        ),
    decreases fields,
{
    if fields.len() > 0 {
        let prefix = fields.subrange(0, fields.len() - 1);
        let f = fields[fields.len() - 1];
        let own: Seq<(Seq<char>, Seq<char>)> = match value_text(f.1) {
            Some(t) => seq![(underscore(underscore(key, variant), f.0@), t)],
            None => seq![],
        };
        lemma_variant_fields_keys(prefix, variant, key, s1, s2);
        law_separator_keeps_keys(f.1, key, s1, s2);
        lemma_keys_concat(variant_field_entries(prefix, variant, key, s1), entries(f.1, key, s1));
        lemma_keys_concat(variant_field_entries(prefix, variant, key, s2), entries(f.1, key, s2));
        lemma_keys_concat(variant_field_entries(prefix, variant, key, s1) + entries(f.1, key, s1), own);
        lemma_keys_concat(variant_field_entries(prefix, variant, key, s2) + entries(f.1, key, s2), own);
    }
}

/// Whether no key is assigned twice.
pub open spec fn keys_distinct(assigned: Seq<(Seq<char>, Seq<char>)>) -> bool {
    forall|i: int, j: int|
        0 <= i < j < assigned.len() ==> #[trigger] assigned[i].0 != #[trigger] assigned[j].0
}

/// The value assigned to `k`, if any.
pub open spec fn lookup(assigned: Seq<(Seq<char>, Seq<char>)>, k: Seq<char>) -> Option<Seq<char>> {
    let i = position(assigned, k);
    if i >= 0 {
        Some(assigned[i].1)
    } else {
        None
    }
}

/// The value text of the last map entry whose key has the text `k` and whose
/// value has a text.
pub open spec fn last_value(es: Seq<(Value, Value)>, k: Seq<char>) -> Option<Seq<char>>
    decreases es.len(),
{
    if es.len() == 0 {
        None
    } else {
        match (value_text(es.last().0), value_text(es.last().1)) {
            (Some(kk), Some(x)) => if kk == k {
                Some(x)
            } else {
                last_value(es.drop_last(), k)
            },
            _ => last_value(es.drop_last(), k),
        }
    }
}

proof fn lemma_position_absent(assigned: Seq<(Seq<char>, Seq<char>)>, k: Seq<char>)
    requires
        position(assigned, k) == -1,
    ensures
        forall|i: int| 0 <= i < assigned.len() ==> #[trigger] assigned[i].0 != k,
    decreases assigned.len(),
{
    if assigned.len() > 0 {
        lemma_position_absent(assigned.drop_last(), k);
        assert forall|i: int| 0 <= i < assigned.len() implies #[trigger] assigned[i].0 != k by {
            if i < assigned.len() - 1 {
                assert(assigned[i] == assigned.drop_last()[i]);
            }
        }
    }
}

proof fn lemma_position_same_keys(a: Seq<(Seq<char>, Seq<char>)>, b: Seq<(Seq<char>, Seq<char>)>, k: Seq<char>)
    requires
        a.len() == b.len(),
        forall|i: int| 0 <= i < a.len() ==> #[trigger] a[i].0 == b[i].0,
    ensures
        position(a, k) == position(b, k),
    decreases a.len(),
{
    if a.len() > 0 {
        assert forall|i: int| 0 <= i < a.drop_last().len() implies #[trigger] a.drop_last()[i].0
            == b.drop_last()[i].0 by {
            assert(a[i].0 == b[i].0);
        }
        lemma_position_same_keys(a.drop_last(), b.drop_last(), k);
    }
}

proof fn lemma_lookup_upsert(assigned: Seq<(Seq<char>, Seq<char>)>, kk: Seq<char>, x: Seq<char>, k: Seq<char>)
    ensures
        lookup(upsert(assigned, kk, x), k) == if k == kk {
            Some(x)
        } else {
            lookup(assigned, k)
        },
{
    lemma_position_bounds(assigned, k);
    lemma_position_bounds(assigned, kk);
    let i = position(assigned, kk);
    let after = upsert(assigned, kk, x);
    if i < 0 {
        assert(after.drop_last() =~= assigned);
    } else {
        lemma_position_same_keys(after, assigned, k);
        if k != kk {
            let j = position(assigned, k);
            if j >= 0 {
                assert(j != i);
            }
        }
    }
}

proof fn lemma_distinct_upsert(assigned: Seq<(Seq<char>, Seq<char>)>, kk: Seq<char>, x: Seq<char>)
    requires
        keys_distinct(assigned),
    ensures
        keys_distinct(upsert(assigned, kk, x)),
{
    lemma_position_bounds(assigned, kk);
    let i = position(assigned, kk);
    let after = upsert(assigned, kk, x);
    if i < 0 {
        lemma_position_absent(assigned, kk);
        assert forall|a: int, b: int| 0 <= a < b < after.len() implies #[trigger] after[a].0
            != #[trigger] after[b].0 by {
            if b == assigned.len() {
                assert(after[a] == assigned[a]);
            } else {
                assert(after[a] == assigned[a] && after[b] == assigned[b]);
            }
        }
    } else {
        lemma_position_bounds(assigned, kk);
        assert forall|a: int, b: int| 0 <= a < b < after.len() implies #[trigger] after[a].0
            != #[trigger] after[b].0 by {
            assert(after[a].0 == assigned[a].0 && after[b].0 == assigned[b].0);
        }
    }
}

/// A map writes each key at most once, and the value written for a key is
/// that of the last entry with that key: what inserting the entries one by
/// one into a map gives.
pub proof fn law_map_last_entry_wins(es: Seq<(Value, Value)>, k: Seq<char>)
    ensures
        keys_distinct(assignments(es)),
        lookup(assignments(es), k) == last_value(es, k),
    decreases es.len(),
{
    if es.len() > 0 {
        let acc = assignments(es.drop_last());
        law_map_last_entry_wins(es.drop_last(), k);
        match (value_text(es.last().0), value_text(es.last().1)) {
            (Some(kk), Some(x)) => {
                lemma_lookup_upsert(acc, kk, x, k);
                lemma_distinct_upsert(acc, kk, x);
            },
            _ => {},
        }
    }
}

/// Joining one more part.
proof fn lemma_join_push(parts: Seq<Seq<char>>, sep: Seq<char>, t: Seq<char>)
    ensures
        join(parts.push(t), sep) == if parts.len() == 0 {
            t
        } else {
            join(parts, sep) + sep + t
        },
{
    assert(parts.push(t).drop_last() =~= parts);
}

/// The elements up to `i + 1`, by those up to `i`.
proof fn lemma_texts_take(items: Seq<Value>, i: int)
    requires
        0 <= i < items.len(),
    ensures
        texts(items.take(i + 1)) == match value_text(items[i]) {
            Some(t) => texts(items.take(i)).push(t),
            None => texts(items.take(i)),
        },
{
    assert(items.take(i + 1).drop_last() =~= items.take(i));
}

/// The index that [`position`] finds for a prefix that ends in a match, or
/// that ends in a mismatch.
proof fn lemma_position_take(assigned: Seq<(Seq<char>, Seq<char>)>, k: Seq<char>, j: int)
    requires
        0 < j <= assigned.len(),
    ensures
        assigned[j - 1].0 == k ==> position(assigned.take(j), k) == j - 1,
        assigned[j - 1].0 != k ==> position(assigned.take(j), k) == position(
            assigned.take(j - 1),
            k,
        ),
{
    assert(assigned.take(j).drop_last() =~= assigned.take(j - 1));
}

/// A position that [`position`] finds is a real index.
proof fn lemma_position_bounds(assigned: Seq<(Seq<char>, Seq<char>)>, k: Seq<char>)
    ensures
        -1 <= position(assigned, k) < assigned.len(),
        position(assigned, k) >= 0 ==> assigned[position(assigned, k)].0 == k,
    decreases assigned.len(),
{
    if assigned.len() > 0 && assigned.last().0 != k {
        lemma_position_bounds(assigned.drop_last(), k);
    }
}

/// Finds the last variable with key `k`.
fn find_last(assigned: &Vec<EnvVar>, k: &String) -> (r: Option<usize>)
    ensures
        match r {
            Some(j) => j < assigned.len() && position(pairs(assigned@), k@) == j,
            None => position(pairs(assigned@), k@) == -1,
        },
{
    let ghost all = pairs(assigned@);
    let mut j: usize = assigned.len();
    assert(all.take(j as int) =~= all);
    while j > 0
        invariant
            j <= assigned.len(),
            all == pairs(assigned@),
            position(all, k@) == position(all.take(j as int), k@),
        decreases j,
    {
        proof {
            lemma_position_take(all, k@, j as int);
        }
        if assigned[j - 1].key == *k {
            return Some(j - 1);
        }
        j = j - 1;
    }
    None
}

/// Assigns `x` to `k` as [`upsert`] does.
fn upsert_var(assigned: &mut Vec<EnvVar>, k: String, x: String)
    ensures
        pairs(final(assigned)@) == upsert(pairs(old(assigned)@), k@, x@),
{
    let ghost before = pairs(assigned@);
    match find_last(assigned, &k) {
        Some(j) => {
            assigned.set(j, EnvVar { key: k, value: x });
            assert(pairs(assigned@) =~= before.update(j as int, (k@, x@)));
        },
        None => {
            let e = EnvVar { key: k, value: x };
            proof {
                lemma_pairs_push(assigned@, e);
            }
            assigned.push(e);
        },
    }
}

/// `a`, `_` and `b` joined.
fn make_underscore(a: &String, b: &String) -> (r: String)
    ensures
        r@ == underscore(a@, b@),
{
    let mut r = a.clone();
    push_char(&mut r, '_');
    r.append(b.as_str());
    r
}

/// The text of a single character.
fn char_string(c: char) -> (s: String)
    ensures
        s@ == seq![c],
{
    let mut s = String::new();
    push_char(&mut s, c);
    assert(s@ =~= seq![c]);
    s
}

/// Adds a variable at the end.
fn push_var(out: &mut Vec<EnvVar>, key: String, value: String)
    ensures
        pairs(final(out)@) == pairs(old(out)@).push((key@, value@)),
{
    let e = EnvVar { key, value };
    proof {
        lemma_pairs_push(out@, e);
    }
    out.push(e);
}

/// The lines of a `.env` file that sets the variables, in order.
pub fn env_file_contents(vars: &Vec<EnvVar>) -> (s: String)
    ensures
        s@ == env_text(pairs(vars@)),
{
    let ghost all = pairs(vars@);
    let mut s = String::new();
    let mut i: usize = 0;
    while i < vars.len()
        invariant
            i <= vars.len(),
            all == pairs(vars@),
            s@ == env_text(all.take(i as int)),
        decreases vars.len() - i,
    {
        let var = &vars[i];
        let upper = upper_text(var.key.as_str());
        s.append(upper.as_str());
        push_char(&mut s, '=');
        s.append(var.value.as_str());
        push_char(&mut s, '\n');
        assert(all.take(i + 1).drop_last() =~= all.take(i as int));
        assert(s@ =~= env_text(all.take(i + 1)));
        i = i + 1;
    }
    assert(all.take(vars.len() as int) =~= all);
    s
}

/// The variables of a struct's fields, by field: appending fields only adds
/// variables after those of the earlier fields.
proof fn lemma_field_entries_contains(
    fields: Seq<(String, Value)>,
    key: Seq<char>,
    sep: Seq<char>,
    i: int,
    t: Seq<char>,
)
    requires
        0 <= i < fields.len(),
        value_text(fields[i].1) == Some(t),
    ensures
        field_entries(fields, key, sep).contains((field_key(key, fields[i].0@), t)),
    decreases fields.len(),
{
    let n = fields.len();
    let prefix = fields.subrange(0, n - 1);
    let f = fields[n - 1];
    let k = field_key(key, f.0@);
    let all = field_entries(fields, key, sep);
    if i == n - 1 {
        assert(all[all.len() - 1] == (k, t));
    } else {
        assert(prefix[i] == fields[i]);
        lemma_field_entries_contains(prefix, key, sep, i, t);
        let before = field_entries(prefix, key, sep);
        let j = choose|j: int| 0 <= j < before.len() && before[j] == (field_key(key, fields[i].0@), t);
        assert(all[j] == before[j]);
    }
}

/// Field keys depend on the struct's own key and the field's name only:
/// every field of a struct that has a text is written under
/// `field_key(key, name)` with that text, whatever its sibling fields hold
/// (the key is back to the struct's own after a nested struct).
pub proof fn law_struct_field_written_under_its_key(
    w: Value,
    key: Seq<char>,
    sep: Seq<char>,
    i: int,
    t: Seq<char>,
)
    requires
        w matches Value::Struct(fields) && 0 <= i < fields@.len() && value_text(fields@[i].1) == Some(t),
    ensures
        entries(w, key, sep).contains((field_key(key, w->Struct_0@[i].0@), t)),
{
    lemma_field_entries_contains(w->Struct_0@, key, sep, i, t);
}

proof fn lemma_variant_field_entries_contains(
    fields: Seq<(String, Value)>,
    variant: Seq<char>,
    key: Seq<char>,
    sep: Seq<char>,
    i: int,
    t: Seq<char>,
)
    requires
        0 <= i < fields.len(),
        value_text(fields[i].1) == Some(t),
    ensures
        variant_field_entries(fields, variant, key, sep).contains(
            (underscore(underscore(key, variant), fields[i].0@), t),
        ),
    decreases fields.len(),
{
    let n = fields.len();
    let prefix = fields.subrange(0, n - 1);
    let all = variant_field_entries(fields, variant, key, sep);
    if i == n - 1 {
        assert(all[all.len() - 1] == (underscore(underscore(key, variant), fields[i].0@), t));
    } else {
        assert(prefix[i] == fields[i]);
        lemma_variant_field_entries_contains(prefix, variant, key, sep, i, t);
        let before = variant_field_entries(prefix, variant, key, sep);
        let j = choose|j: int|
            0 <= j < before.len() && before[j] == (
                underscore(underscore(key, variant), fields[i].0@),
                t,
            );
        assert(all[j] == before[j]);
    }
}

/// Every field of a struct variant that has a text is written under
/// `key_Variant_field` with that text, whatever its sibling fields hold.
pub proof fn law_struct_variant_field_written(
    w: Value,
    key: Seq<char>,
    sep: Seq<char>,
    i: int,
    t: Seq<char>,
)
    requires
        w matches Value::StructVariant(var, fields) && 0 <= i < fields@.len() && value_text(
            fields@[i].1,
        ) == Some(t),
    ensures
        entries(w, key, sep).contains(
            (
                key + seq!['_'] + w->StructVariant_0@ + seq!['_'] + w->StructVariant_1@[i].0@,
                t,
            ),
        ),
{
    let var = w->StructVariant_0@;
    let fields = w->StructVariant_1@;
    lemma_variant_field_entries_contains(fields, var, key, sep, i, t);
    assert(underscore(underscore(key, var), fields[i].0@) =~= key + seq!['_'] + var + seq!['_']
        + fields[i].0@);
}

/// The text of every scalar, written as a struct's only field: a boolean as
/// `0` (true) or `1` (false), integers in decimal with a sign when negative,
/// a float as the text it came with, a character as itself, a string as
/// itself, bytes in lowercase hex, unit structs and unit variants by name;
/// `None` and `()` write nothing.
pub proof fn law_scalar_field(w: Value, name: String, x: Value, key: Seq<char>, sep: Seq<char>)
    requires
        w matches Value::Struct(fields) && fields@ == seq![(name, x)],
    ensures
        x matches Value::Bool(b) ==> entries(w, key, sep) == seq![
            (
                field_key(key, name@),
                if b {
                    seq!['0']
                } else {
                    seq!['1']
                },
            ),
        ],
        x matches Value::I64(i) ==> entries(w, key, sep) == seq![
            (field_key(key, name@), signed_decimal(i as int)),
        ],
        x matches Value::U64(u) ==> entries(w, key, sep) == seq![
            (field_key(key, name@), decimal(u as nat)),
        ],
        x matches Value::Float(f) ==> entries(w, key, sep) == seq![(field_key(key, name@), f@)],
        x matches Value::Char(c) ==> entries(w, key, sep) == seq![(field_key(key, name@), seq![c])],
        x matches Value::Str(st) ==> entries(w, key, sep) == seq![(field_key(key, name@), st@)],
        x matches Value::Bytes(bs) ==> entries(w, key, sep) == seq![
            (field_key(key, name@), hex_lower(bs@)),
        ],
        x matches Value::UnitStruct(n) ==> entries(w, key, sep) == seq![(field_key(key, name@), n@)],
        x matches Value::UnitVariant(n) ==> entries(w, key, sep) == seq![(field_key(key, name@), n@)],
        x is Unit ==> entries(w, key, sep) == Seq::<(Seq<char>, Seq<char>)>::empty(),
{
    let fields = w->Struct_0@;
    assert(fields.len() == 1 && fields[0] == (name, x));
    assert(fields.subrange(0, 0) =~= Seq::<(String, Value)>::empty());
    assert(field_entries(fields.subrange(0, 0), key, sep) == Seq::<(Seq<char>, Seq<char>)>::empty());
    let k = field_key(key, name@);
    assert(fields[fields.len() - 1] == (name, x));
    assert(entries(w, key, sep) == field_entries(fields, key, sep));
    assert(entries(w, key, sep) =~= entries(x, k, sep) + match value_text(x) {
        Some(t) => seq![(k, t)],
        None => seq![],
    });
}

/// A newtype variant is its content: it writes exactly the variables its
/// content writes, under the same key, and hands up `Variant_text` when the
/// content has a text, nothing otherwise.
pub proof fn law_newtype_variant_is_content(w: Value, inner: Value, key: Seq<char>, sep: Seq<char>)
    requires
        w matches Value::NewtypeVariant(n, b) && *b == inner,
    ensures
        entries(w, key, sep) == entries(inner, key, sep),
        value_text(inner) is None ==> value_text(w) is None,
        value_text(inner) matches Some(t) ==> value_text(w) == Some(
            w->NewtypeVariant_0@ + seq!['_'] + t,
        ),
{
}

/// The elements' texts, by the element that each comes from.
proof fn lemma_texts_two(a: Value, b: Value, t1: Seq<char>, t2: Seq<char>)
    requires
        value_text(a) == Some(t1),
        value_text(b) == Some(t2),
    ensures
        texts(seq![a, b]) == seq![t1, t2],
{
    assert(seq![a, b].drop_last() =~= seq![a]);
    assert(seq![a].drop_last() =~= Seq::<Value>::empty());
    assert(seq![a].last() == a);
    assert(seq![a, b].last() == b);
    assert(texts(Seq::<Value>::empty()) == Seq::<Seq<char>>::empty());
    assert(texts(seq![a]) =~= seq![t1]);
    assert(texts(seq![a, b]) =~= seq![t1, t2]);
}

/// A sequence whose elements have texts `t1` and `t2` is written, last, as
/// its key with `"t1<sep>t2"`: the whole separator between the texts.
pub proof fn law_sequence_of_two(
    w: Value,
    a: Value,
    b: Value,
    t1: Seq<char>,
    t2: Seq<char>,
    key: Seq<char>,
    sep: Seq<char>,
)
    requires
        w matches Value::Sequence(items) && items@ == seq![a, b],
        value_text(a) == Some(t1),
        value_text(b) == Some(t2),
    ensures
        entries(w, key, sep).len() > 0,
        entries(w, key, sep).last() == (key, seq!['"'] + t1 + sep + t2 + seq!['"']),
{
    lemma_texts_two(a, b, t1, t2);
    let ts = seq![t1, t2];
    assert(ts.drop_last() =~= seq![t1]);
    assert(ts.last() == t2);
    assert(join(seq![t1], sep) == t1);
    assert(join(ts, sep) == t1 + sep + t2);
    let e = entries(w, key, sep);
    assert(e == element_entries(seq![a, b], key, sep) + sequence_var(key, ts, sep));
}

/// A tuple variant whose fields have texts `t1` and `t2` is written, last, as
/// its key with `Variant_t1_t2`.
pub proof fn law_tuple_variant_of_two(
    w: Value,
    a: Value,
    b: Value,
    t1: Seq<char>,
    t2: Seq<char>,
    key: Seq<char>,
    sep: Seq<char>,
)
    requires
        w matches Value::TupleVariant(var, items) && items@ == seq![a, b],
        value_text(a) == Some(t1),
        value_text(b) == Some(t2),
    ensures
        entries(w, key, sep).len() > 0,
        entries(w, key, sep).last() == (
            key,
            w->TupleVariant_0@ + seq!['_'] + t1 + seq!['_'] + t2,
        ),
{
    lemma_texts_two(a, b, t1, t2);
    let ts = seq![t1, t2];
    assert(ts.drop_last() =~= seq![t1]);
    assert(ts.last() == t2);
    assert(join(seq![t1], seq!['_']) == t1);
    assert(join(ts, seq!['_']) == t1 + seq!['_'] + t2);
    let e = entries(w, key, sep);
    assert(e == element_entries(seq![a, b], key, sep) + tuple_variant_var(
        key,
        w->TupleVariant_0@,
        ts,
    ));
    assert(e.last().1 =~= w->TupleVariant_0@ + seq!['_'] + t1 + seq!['_'] + t2);
}

/// A sequence has a text among its elements up to `n` exactly when some
/// element there has a text.
proof fn lemma_texts_nonempty(items: Seq<Value>, i: int)
    requires
        0 <= i < items.len(),
        value_text(items[i]) is Some,
    ensures
        texts(items).len() > 0,
    decreases items.len(),
{
    if i < items.len() - 1 {
        assert(items.drop_last()[i] == items[i]);
        lemma_texts_nonempty(items.drop_last(), i);
    }
}

/// Adding an element with text `t` to a sequence that already has a text
/// inserts `<sep>t` before the closing quote of the sequence's value:
/// elements are joined, in order, by the whole separator.
pub proof fn law_sequence_push(
    w1: Value,
    w2: Value,
    x: Value,
    t: Seq<char>,
    i: int,
    key: Seq<char>,
    sep: Seq<char>,
)
    requires
        w1 matches Value::Sequence(v1),
        w2 matches Value::Sequence(v2),
        w2->Sequence_0@ == w1->Sequence_0@.push(x),
        0 <= i < w1->Sequence_0@.len() && value_text(w1->Sequence_0@[i]) is Some,
        value_text(x) == Some(t),
    ensures
        entries(w1, key, sep).len() > 0,
        entries(w2, key, sep).len() > 0,
        entries(w1, key, sep).last().0 == key,
        entries(w2, key, sep).last() == (
            key,
            entries(w1, key, sep).last().1.drop_last() + sep + t + seq!['"'],
        ),
{
    let v1 = w1->Sequence_0@;
    let v2 = w2->Sequence_0@;
    lemma_texts_nonempty(v1, i);
    assert(v2.drop_last() =~= v1);
    assert(texts(v2) == texts(v1).push(t));
    lemma_join_push(texts(v1), sep, t);
    let j1 = join(texts(v1), sep);
    assert((seq!['"'] + j1 + seq!['"']).drop_last() =~= seq!['"'] + j1);
    assert(seq!['"'] + (j1 + sep + t) + seq!['"'] =~= seq!['"'] + j1 + sep + t + seq!['"']);
}

/// What a map writes for a key: the value of the key's last entry, under
/// `key_k`.
pub proof fn law_map_entry_written(w: Value, k: Seq<char>, x: Seq<char>, key: Seq<char>, sep: Seq<char>)
    requires
        w matches Value::Mapping(es) && last_value(es@, k) == Some(x),
    ensures
        entries(w, key, sep).contains((key + seq!['_'] + k, x)),
{
    let es = w->Mapping_0@;
    law_map_last_entry_wins(es, k);
    let assigned = assignments(es);
    lemma_position_bounds(assigned, k);
    let p = position(assigned, k);
    let vars = map_vars(key, assigned);
    assert(vars[p] == (underscore(key, k), x));
    let e = entries(w, key, sep);
    let m = mapping_entries(es, key, sep);
    assert(e == m + vars);
    assert(e[m.len() + p] == vars[p]);
}

/// Adding a field to a struct adds, after the variables the struct wrote
/// before, exactly the variables of the new field: its value rendered under
/// `field_key(key, name)`, then the field itself under that key if it has a
/// text. Earlier fields do not change the key of later ones.
pub proof fn law_struct_push_field(
    w1: Value,
    w2: Value,
    name: String,
    x: Value,
    key: Seq<char>,
    sep: Seq<char>,
)
    requires
        w1 matches Value::Struct(f1),
        w2 matches Value::Struct(f2),
        w2->Struct_0@ == w1->Struct_0@.push((name, x)),
    ensures
        entries(w2, key, sep) == entries(w1, key, sep) + entries(x, field_key(key, name@), sep)
            + match value_text(x) {
            Some(t) => seq![(field_key(key, name@), t)],
            None => Seq::<(Seq<char>, Seq<char>)>::empty(),
        },
{
    let f2 = w2->Struct_0@;
    assert(f2.subrange(0, f2.len() - 1) =~= w1->Struct_0@);
    assert(f2[f2.len() - 1] == (name, x));
    assert(entries(w2, key, sep) == field_entries(f2, key, sep));
    assert(entries(w1, key, sep) == field_entries(w1->Struct_0@, key, sep));
}

/// A struct whose fields are all scalars writes one variable per field, in
/// field order: field `i` under `field_key(key, name_i)` with its text.
pub proof fn law_flat_struct(w: Value, key: Seq<char>, sep: Seq<char>)
    requires
        w matches Value::Struct(fields),
        forall|i: int|
            0 <= i < w->Struct_0@.len() ==> is_scalar(#[trigger] w->Struct_0@[i].1),
    ensures
        entries(w, key, sep).len() == w->Struct_0@.len(),
        forall|i: int|
            0 <= i < w->Struct_0@.len() ==> #[trigger] entries(w, key, sep)[i] == (
                field_key(key, w->Struct_0@[i].0@),
                value_text(w->Struct_0@[i].1)->Some_0,
            ),
{
    lemma_flat_fields(w->Struct_0@, key, sep);
}

/// A value with a text of its own that writes no variables: a boolean,
/// number, character, string, byte string, unit struct or unit variant.
pub open spec fn is_scalar(v: Value) -> bool {
    ||| v is Bool
    ||| v is I64
    ||| v is U64
    ||| v is Float
    ||| v is Char
    ||| v is Str
    ||| v is Bytes
    ||| v is UnitStruct
    ||| v is UnitVariant
}

proof fn lemma_flat_fields(fields: Seq<(String, Value)>, key: Seq<char>, sep: Seq<char>)
    requires
        forall|i: int| 0 <= i < fields.len() ==> is_scalar(#[trigger] fields[i].1),
    ensures
        field_entries(fields, key, sep).len() == fields.len(),
        forall|i: int|
            0 <= i < fields.len() ==> #[trigger] field_entries(fields, key, sep)[i] == (
                field_key(key, fields[i].0@),
                value_text(fields[i].1)->Some_0,
            ),
    decreases fields.len(),
{
    if fields.len() > 0 {
        let n = fields.len();
        let prefix = fields.subrange(0, n - 1);
        assert forall|i: int| 0 <= i < prefix.len() implies is_scalar(#[trigger] prefix[i].1) by {
            assert(prefix[i] == fields[i]);
        }
        lemma_flat_fields(prefix, key, sep);
        let f = fields[n - 1];
        assert(is_scalar(f.1));
        let k = field_key(key, f.0@);
        assert(entries(f.1, k, sep) == Seq::<(Seq<char>, Seq<char>)>::empty());
        let all = field_entries(fields, key, sep);
        assert(all =~= field_entries(prefix, key, sep).push((k, value_text(f.1)->Some_0)));
        assert forall|i: int| 0 <= i < fields.len() implies #[trigger] all[i] == (
            field_key(key, fields[i].0@),
            value_text(fields[i].1)->Some_0,
        ) by {
            if i < n - 1 {
                assert(prefix[i] == fields[i]);
            }
        }
    }
}

/// A sequence (or tuple variant) none of whose elements has a text writes
/// no variable of its own: only what its elements write.
pub proof fn law_sequence_without_texts(w: Value, key: Seq<char>, sep: Seq<char>)
    requires
        w matches Value::Sequence(items) || w matches Value::TupleVariant(var, items),
        w is Sequence ==> forall|i: int|
            0 <= i < w->Sequence_0@.len() ==> #[trigger] w->Sequence_0@[i] is Unit,
        w is TupleVariant ==> forall|i: int|
            0 <= i < w->TupleVariant_1@.len() ==> #[trigger] w->TupleVariant_1@[i] is Unit,
    ensures
        entries(w, key, sep) == Seq::<(Seq<char>, Seq<char>)>::empty(),
{
    let items = if w is Sequence {
        w->Sequence_0@
    } else {
        w->TupleVariant_1@
    };
    lemma_units_write_nothing(items, key, sep);
}

proof fn lemma_units_write_nothing(items: Seq<Value>, key: Seq<char>, sep: Seq<char>)
    requires
        forall|i: int| 0 <= i < items.len() ==> #[trigger] items[i] is Unit,
    ensures
        element_entries(items, key, sep) == Seq::<(Seq<char>, Seq<char>)>::empty(),
        texts(items) == Seq::<Seq<char>>::empty(),
    decreases items.len(),
{
    if items.len() > 0 {
        let prefix = items.subrange(0, items.len() - 1);
        assert forall|i: int| 0 <= i < prefix.len() implies #[trigger] prefix[i] is Unit by {
            assert(prefix[i] == items[i]);
        }
        lemma_units_write_nothing(prefix, key, sep);
        assert(items.drop_last() =~= prefix);
        assert(items[items.len() - 1] is Unit);
        assert(entries(items[items.len() - 1], key, sep) == Seq::<(Seq<char>, Seq<char>)>::empty());
        assert(value_text(items.last()) is None);
        assert(element_entries(items, key, sep) =~= Seq::<(Seq<char>, Seq<char>)>::empty());
    }
}

/// The text of a `.env` file is the texts of its parts, one after the other;
/// a single variable `(k, x)` is the line `K=x` with `K` upper-cased and a
/// newline at the end.
pub proof fn law_env_text_lines(a: Seq<(Seq<char>, Seq<char>)>, b: Seq<(Seq<char>, Seq<char>)>, k: Seq<char>, x: Seq<char>)
    ensures
        env_text(a + b) == env_text(a) + env_text(b),
        env_text(seq![(k, x)]) == uppercase(k) + seq!['='] + x + seq!['\n'],
    decreases b.len(),
{
    assert(seq![(k, x)].drop_last() =~= Seq::<(Seq<char>, Seq<char>)>::empty());
    assert(seq![(k, x)].last() == (k, x));
    assert(env_text(Seq::<(Seq<char>, Seq<char>)>::empty()) == Seq::<char>::empty());
    assert(env_text(seq![(k, x)]) =~= uppercase(k) + seq!['='] + x + seq!['\n']);
    if b.len() == 0 {
        assert(a + b =~= a);
        assert(env_text(a) + env_text(b) =~= env_text(a));
    } else {
        law_env_text_lines(a, b.drop_last(), k, x);
        assert((a + b).drop_last() =~= a + b.drop_last());
        assert((a + b).last() == b.last());
        assert(env_text(a + b) =~= env_text(a) + env_text(b));
    }
}

/// The I/O error of the standard library, carried as it is.
#[verifier::external_type_specification]
#[verifier::external_body]
pub struct ExIoError(std::io::Error);

/// What can go wrong when a `.env` file is written.
#[derive(Debug)]
pub enum Error {
    /// The file could not be opened or written.
    Io(std::io::Error),
}

/// What an `EnvSerializerBuilder::serialize` call produces: the file to
/// write and its contents.
#[derive(Debug)]
pub struct EnvFile {
    pub path: String,
    pub contents: String,
}

/// Writes values as `.env` files, under a key prefix, joining sequence
/// elements with a separator.
#[derive(Clone, Debug, PartialEq, Eq)]
pub struct EnvSerializerBuilder {
    path: String,
    prefix: String,
    separator: String,
}

impl EnvSerializerBuilder {
    /// The file that the variables are written to.
    pub closed spec fn path_chars(self) -> Seq<char> {
        self.path@
    }

    /// The key under which the value is rendered.
    pub closed spec fn prefix_chars(self) -> Seq<char> {
        self.prefix@
    }

    /// What separates the elements of a sequence.
    pub closed spec fn separator_chars(self) -> Seq<char> {
        self.separator@
    }

    /// A builder that writes to `.env`, with no prefix, and separates
    /// sequence elements with a space.
    pub fn new() -> (b: Self)
        ensures
            b.path_chars() == seq!['.', 'e', 'n', 'v'],
            b.prefix_chars() == Seq::<char>::empty(),
            b.separator_chars() == seq![' '],
    {
        Self::default()
    }

    /// The builder with its file set to `path`.
    pub fn with_path(self, path: &str) -> (b: Self)
        ensures
            b.path_chars() == path@,
            b.prefix_chars() == self.prefix_chars(),
            b.separator_chars() == self.separator_chars(),
    {
        Self { path: path.to_owned(), ..self }
    }

    /// The builder with its key prefix set to `prefix`.
    pub fn with_prefix(self, prefix: &str) -> (b: Self)
        ensures
            b.path_chars() == self.path_chars(),
            b.prefix_chars() == prefix@,
            b.separator_chars() == self.separator_chars(),
    {
        Self { prefix: prefix.to_owned(), ..self }
    }

    /// The builder with its sequence separator set to `sep`.
    pub fn with_separator(self, sep: &str) -> (b: Self)
        ensures
            b.path_chars() == self.path_chars(),
            b.prefix_chars() == self.prefix_chars(),
            b.separator_chars() == sep@,
    {
        Self { separator: sep.to_owned(), ..self }
    }

    /// The variables that serializing `value` writes, in order, with their
    /// keys as built (before upper-casing).
    pub fn variables(&self, value: &Value) -> (vars: Vec<EnvVar>)
        ensures
            pairs(vars@) == entries(*value, self.prefix_chars(), self.separator_chars()),
    {
        let mut vars: Vec<EnvVar> = Vec::new();
        let _ = self.emit(value, &self.prefix, &mut vars);
        assert(pairs(vars@) =~= entries(*value, self.prefix@, self.separator@));
        vars
    }

    /// Serializes `value`: the `.env` file to write, at the builder's path,
    /// holding one `KEY=value` line for each variable that the value renders
    /// to under the builder's prefix. A scalar at the top renders to nothing.
    pub fn serialize(self, value: &Value) -> (file: EnvFile)
        ensures
            file.path@ == self.path_chars(),
            file.contents@ == env_text(
                entries(*value, self.prefix_chars(), self.separator_chars()),
            ),
    {
        let vars = self.variables(value);
        let contents = env_file_contents(&vars);
        EnvFile { path: self.path, contents }
    }

    /// Renders `v` under `key`: appends the variables it writes to `out`, and
    /// returns the text it hands to its container.
    fn emit(&self, v: &Value, key: &String, out: &mut Vec<EnvVar>) -> (t: Option<String>)
        ensures
            pairs(final(out)@) == pairs(old(out)@) + entries(*v, key@, self.separator@),
            opt_chars(t) == value_text(*v),
        decreases v,
    {
        let ghost start = pairs(out@);
        let t = match v {
            Value::Bool(b) => Some(char_string(if *b { '0' } else { '1' })),
            Value::I64(i) => Some(i64_text(*i)),
            Value::U64(u) => Some(u64_text(*u)),
            Value::Float(s) => Some(s.clone()),
            Value::Char(c) => Some(char_string(*c)),
            Value::Str(s) => Some(s.clone()),
            Value::Bytes(b) => Some(hex_text(b.as_slice())),
            Value::Unit => None,
            Value::UnitStruct(n) => Some(n.clone()),
            Value::UnitVariant(n) => Some(n.clone()),
            Value::NewtypeVariant(var, inner) => {
                let t = self.emit(inner, key, out);
                match t {
                    Some(t) => Some(make_underscore(var, &t)),
                    None => None,
                }
            },
            Value::Sequence(items) => {
                let mut joined = String::new();
                let mut count: usize = 0;
                let mut i: usize = 0;
                while i < items.len()
                    invariant
                        *v == Value::Sequence(*items),
                        i <= items.len(),
                        pairs(out@) == start + element_entries(
                            items@.take(i as int),
                            key@,
                            self.separator@,
                        ),
                        joined@ == join(texts(items@.take(i as int)), self.separator@),
                        count == texts(items@.take(i as int)).len(),
                        count <= i,
                    decreases items.len() - i,
                {
                    proof {
                        assert(decreases_to!(*v => v->Sequence_0));
                        assert(decreases_to!(*items => items@));
                        assert(decreases_to!(items@ => items@[i as int]));
                    }
                    let t = self.emit(&items[i], key, out);
                    proof {
                        assert(items@.take(i + 1).subrange(0, i as int) =~= items@.take(i as int));
                        lemma_texts_take(items@, i as int);
                    }
                    match t {
                        Some(t) => {
                            proof {
                                lemma_join_push(texts(items@.take(i as int)), self.separator@, t@);
                            }
                            if count > 0 {
                                joined.append(self.separator.as_str());
                            }
                            joined.append(t.as_str());
                            count = count + 1;
                        },
                        None => {},
                    }
                    i = i + 1;
                }
                assert(items@.take(items.len() as int) =~= items@);
                if count > 0 {
                    let mut quoted = char_string('"');
                    quoted.append(joined.as_str());
                    push_char(&mut quoted, '"');
                    assert(quoted@ =~= seq!['"'] + joined@ + seq!['"']);
                    push_var(out, key.clone(), quoted);
                }
                None
            },
            Value::TupleVariant(var, items) => {
                let under = char_string('_');
                let mut joined = String::new();
                let mut count: usize = 0;
                let mut i: usize = 0;
                while i < items.len()
                    invariant
                        *v == Value::TupleVariant(*var, *items),
                        under@ == seq!['_'],
                        i <= items.len(),
                        pairs(out@) == start + element_entries(
                            items@.take(i as int),
                            key@,
                            self.separator@,
                        ),
                        joined@ == join(texts(items@.take(i as int)), seq!['_']),
                        count == texts(items@.take(i as int)).len(),
                        count <= i,
                    decreases items.len() - i,
                {
                    proof {
                        assert(decreases_to!(*v => v->TupleVariant_1));
                        assert(decreases_to!(*items => items@));
                        assert(decreases_to!(items@ => items@[i as int]));
                    }
                    let t = self.emit(&items[i], key, out);
                    proof {
                        assert(items@.take(i + 1).subrange(0, i as int) =~= items@.take(i as int));
                        lemma_texts_take(items@, i as int);
                    }
                    match t {
                        Some(t) => {
                            proof {
                                lemma_join_push(texts(items@.take(i as int)), seq!['_'], t@);
                            }
                            if count > 0 {
                                joined.append(under.as_str());
                            }
                            joined.append(t.as_str());
                            count = count + 1;
                        },
                        None => {},
                    }
                    i = i + 1;
                }
                assert(items@.take(items.len() as int) =~= items@);
                if count > 0 {
                    push_var(out, key.clone(), make_underscore(var, &joined));
                }
                None
            },
            Value::Mapping(es) => {
                let mut assigned: Vec<EnvVar> = Vec::new();
                let mut i: usize = 0;
                while i < es.len()
                    invariant
                        *v == Value::Mapping(*es),
                        i <= es.len(),
                        pairs(out@) == start + mapping_entries(
                            es@.take(i as int),
                            key@,
                            self.separator@,
                        ),
                        pairs(assigned@) == assignments(es@.take(i as int)),
                    decreases es.len() - i,
                {
                    let e = &es[i];
                    proof {
                        assert(decreases_to!(*v => v->Mapping_0));
                        assert(decreases_to!(*es => es@));
                        assert(decreases_to!(es@ => es@[i as int]));
                        assert(decreases_to!(es@[i as int] => es@[i as int].0));
                        assert(decreases_to!(es@[i as int] => es@[i as int].1));
                    }
                    let kt = self.emit(&e.0, key, out);
                    let xt = self.emit(&e.1, key, out);
                    proof {
                        assert(es@.take(i + 1).subrange(0, i as int) =~= es@.take(i as int));
                        assert(es@.take(i + 1).drop_last() =~= es@.take(i as int));
                    }
                    match (kt, xt) {
                        (Some(k), Some(x)) => {
                            upsert_var(&mut assigned, k, x);
                        },
                        _ => {},
                    }
                    i = i + 1;
                }
                assert(es@.take(es.len() as int) =~= es@);
                let ghost mid = pairs(out@);
                let ghost all = pairs(assigned@);
                let mut j: usize = 0;
                while j < assigned.len()
                    invariant
                        j <= assigned.len(),
                        all == pairs(assigned@),
                        pairs(out@) == mid + map_vars(key@, all.take(j as int)),
                    decreases assigned.len() - j,
                {
                    let a = &assigned[j];
                    push_var(out, make_underscore(key, &a.key), a.value.clone());
                    assert(map_vars(key@, all.take(j + 1)) =~= map_vars(key@, all.take(j as int)).push(
                        (underscore(key@, all[j as int].0), all[j as int].1),
                    ));
                    j = j + 1;
                }
                assert(all.take(assigned.len() as int) =~= all);
                None
            },
            Value::Struct(fields) => {
                let mut i: usize = 0;
                while i < fields.len()
                    invariant
                        *v == Value::Struct(*fields),
                        i <= fields.len(),
                        pairs(out@) == start + field_entries(
                            fields@.take(i as int),
                            key@,
                            self.separator@,
                        ),
                    decreases fields.len() - i,
                {
                    let f = &fields[i];
                    proof {
                        assert(decreases_to!(*v => v->Struct_0));
                        assert(decreases_to!(*fields => fields@));
                        assert(decreases_to!(fields@ => fields@[i as int]));
                        assert(decreases_to!(fields@[i as int] => fields@[i as int].1));
                    }
                    let k = make_field_key(key, &f.0);
                    let t = self.emit(&f.1, &k, out);
                    proof {
                        assert(fields@.take(i + 1).subrange(0, i as int) =~= fields@.take(i as int));
                    }
                    match t {
                        Some(t) => {
                            push_var(out, k, t);
                        },
                        None => {},
                    }
                    i = i + 1;
                }
                assert(fields@.take(fields.len() as int) =~= fields@);
                None
            },
            Value::StructVariant(var, fields) => {
                let base = make_underscore(key, var);
                let mut i: usize = 0;
                while i < fields.len()
                    invariant
                        *v == Value::StructVariant(*var, *fields),
                        base@ == underscore(key@, var@),
                        i <= fields.len(),
                        pairs(out@) == start + variant_field_entries(
                            fields@.take(i as int),
                            var@,
                            key@,
                            self.separator@,
                        ),
                    decreases fields.len() - i,
                {
                    let f = &fields[i];
                    proof {
                        assert(decreases_to!(*v => v->StructVariant_1));
                        assert(decreases_to!(*fields => fields@));
                        assert(decreases_to!(fields@ => fields@[i as int]));
                        assert(decreases_to!(fields@[i as int] => fields@[i as int].1));
                    }
                    let t = self.emit(&f.1, key, out);
                    proof {
                        assert(fields@.take(i + 1).subrange(0, i as int) =~= fields@.take(i as int));
                    }
                    match t {
                        Some(t) => {
                            push_var(out, make_underscore(&base, &f.0), t);
                        },
                        None => {},
                    }
                    i = i + 1;
                }
                assert(fields@.take(fields.len() as int) =~= fields@);
                None
            },
        };
        assert(pairs(out@) =~= start + entries(*v, key@, self.separator@));
        t
    }
}

impl Default for EnvSerializerBuilder {
    fn default() -> (b: Self)
        ensures
            b.path_chars() == seq!['.', 'e', 'n', 'v'],
            b.prefix_chars() == Seq::<char>::empty(),
            b.separator_chars() == seq![' '],
    {
        let mut path = char_string('.');
        push_char(&mut path, 'e');
        push_char(&mut path, 'n');
        push_char(&mut path, 'v');
        assert(path@ =~= seq!['.', 'e', 'n', 'v']);
        Self { path, prefix: String::new(), separator: char_string(' ') }
    }
}

} // verus!
