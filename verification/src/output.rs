//! The Rust types that generated query structs give their fields.

use vstd::prelude::*;
use crate::casing::{camel_case, pascal_case, snake_case, to_camel_case, to_pascal_case, to_snake_case};
use crate::document::{SchemaType, TypeRef};
use crate::processing::VariableStructs;
use crate::executable::FieldSelection;
use crate::maps::{OverrideMap, ScalarTypeMap};
use crate::text::{contains_text, lemma_contains_text_within, str_eq, string_push};
use crate::wrappers::{TypeWrappers, WrappingType};

verus! {

/// A field of a generated query struct: its Rust name, the GraphQL name it
/// is renamed from when the two differ, and its Rust type.
pub struct OutputField {
    pub name: String,
    pub rename: Option<String>,
    pub field_type: RustOutputFieldType,
}

/// A generated input object: its GraphQL name, its fields with their
/// Rust types, the registered schema it belongs to, and whether it is a
/// `@oneOf` input object.
pub struct InputObject<'a> {
    pub name: String,
    pub fields: Vec<InputObjectField<'a>>,
    pub schema_name: Option<String>,
    pub is_oneof: bool,
}

/// A field of a generated input object and its Rust type.
pub struct InputObjectField<'a> {
    pub schema_field: &'a crate::document::InputValueDefinition,
    pub type_spec: crate::type_spec::TypeSpec,
}

/// The Rust type of an output field: a Rust type name for the GraphQL type,
/// with the field's wrappers.
pub struct RustOutputFieldType {
    pub name: String,
    pub wrappers: TypeWrappers,
}

/// The Rust type a GraphQL type name stands for: `Int`, `Float`, `Boolean`
/// and (already pascal-cased) `Id` map to Rust types, every other name
/// stands for itself.
pub open spec fn rust_scalar_name(name: Seq<char>) -> Seq<char> {
    if name == seq!['I', 'n', 't'] {
        seq!['i', '3', '2']
    } else if name == seq!['F', 'l', 'o', 'a', 't'] {
        seq!['f', '6', '4']
    } else if name == seq!['B', 'o', 'o', 'l', 'e', 'a', 'n'] {
        seq!['b', 'o', 'o', 'l']
    } else if name == seq!['I', 'd'] {
        seq!['c', 'y', 'n', 'i', 'c', ':', ':', 'I', 'd']
    } else {
        name
    }
}

/// `Option<t>` when `nullable`, else `t`.
pub open spec fn optional(nullable: bool, t: Seq<char>) -> Seq<char> {
    if nullable {
        seq!['O', 'p', 't', 'i', 'o', 'n', '<'] + t + seq!['>']
    } else {
        t
    }
}

/// The Rust type for the named type `base` under the wrappers `w`
/// (outermost first), where `nullable` says whether no `!` stands right
/// outside `w`: every nullable layer is an `Option`, every list a `Vec`.
pub open spec fn rust_output_type(w: Seq<WrappingType>, nullable: bool, base: Seq<char>) -> Seq<char>
    decreases w.len(),
{
    if w.len() == 0 {
        optional(nullable, base)
    } else {
        match w[0] {
            WrappingType::NonNull => rust_output_type(w.drop_first(), false, base),
            WrappingType::List => optional(
                nullable,
                seq!['V', 'e', 'c', '<'] + rust_output_type(w.drop_first(), true, base) + seq!['>'],
            ),
        }
    }
}

/// The text written before the base type name.
pub open spec fn opening(w: Seq<WrappingType>, nullable: bool) -> Seq<char>
    decreases w.len(),
{
    if w.len() == 0 {
        if nullable {
            seq!['O', 'p', 't', 'i', 'o', 'n', '<']
        } else {
            Seq::empty()
        }
    } else {
        match w[0] {
            WrappingType::NonNull => opening(w.drop_first(), false),
            WrappingType::List => (if nullable {
                seq!['O', 'p', 't', 'i', 'o', 'n', '<']
            } else {
                Seq::<char>::empty()
            }) + seq!['V', 'e', 'c', '<'] + opening(w.drop_first(), true),
        }
    }
}

/// How many brackets the text before the base type name opens.
pub open spec fn opened(w: Seq<WrappingType>, nullable: bool) -> nat
    decreases w.len(),
{
    if w.len() == 0 {
        if nullable {
            1
        } else {
            0
        }
    } else {
        match w[0] {
            WrappingType::NonNull => opened(w.drop_first(), false),
            WrappingType::List => (if nullable {
                1nat
            } else {
                0nat
            }) + 1 + opened(w.drop_first(), true),
        }
    }
}

/// `n` closing angle brackets.
pub open spec fn closing(n: nat) -> Seq<char>
    decreases n,
{
    if n == 0 {
        Seq::empty()
    } else {
        closing((n - 1) as nat) + seq!['>']
    }
}

proof fn lemma_closing_prepend(n: nat)
    ensures
        seq!['>'] + closing(n) == closing(n + 1),
    decreases n,
{
    if n > 0 {
        lemma_closing_prepend((n - 1) as nat);
        assert(seq!['>'] + closing(n) == (seq!['>'] + closing((n - 1) as nat)) + seq!['>']);
    } else {
        assert(closing(1) == closing(0) + seq!['>']);
    }
}

proof fn lemma_closing_add(a: nat, b: nat)
    ensures
        closing(a) + closing(b) == closing(a + b),
    decreases b,
{
    if b > 0 {
        lemma_closing_add(a, (b - 1) as nat);
        assert(closing(a) + closing(b) == (closing(a) + closing((b - 1) as nat)) + seq!['>']);
    } else {
        assert(closing(a) + closing(0) == closing(a));
    }
}

/// The type is the opening text, the base name and as many closing brackets.
proof fn lemma_rust_output_type_shape(w: Seq<WrappingType>, nullable: bool, base: Seq<char>)
    ensures
        rust_output_type(w, nullable, base) == opening(w, nullable) + base + closing(
            opened(w, nullable),
        ),
    decreases w.len(),
{
    let opt = seq!['O', 'p', 't', 'i', 'o', 'n', '<'];
    if w.len() == 0 {
        if nullable {
            assert(closing(1) == seq!['>']) by {
                assert(closing(1) == closing(0) + seq!['>']);
            }
        } else {
            assert(closing(0) == Seq::<char>::empty());
        }
    } else {
        let rest = w.drop_first();
        match w[0] {
            WrappingType::NonNull => {
                lemma_rust_output_type_shape(rest, false, base);
            },
            WrappingType::List => {
                lemma_rust_output_type_shape(rest, true, base);
                let inner = rust_output_type(rest, true, base);
                let k = opened(rest, true);
                lemma_closing_add(k, 1);
                assert(closing(1) == seq!['>']) by {
                    assert(closing(1) == closing(0) + seq!['>']);
                }
                if nullable {
                    lemma_closing_add(k + 1, 1);
                    assert(rust_output_type(w, nullable, base) == opt + (seq!['V', 'e', 'c', '<'] + inner
                        + seq!['>']) + seq!['>']);
                    assert(opening(w, nullable) == opt + seq!['V', 'e', 'c', '<'] + opening(rest, true));
                    assert(opened(w, nullable) == k + 2);
                } else {
                    assert(opening(w, nullable) == Seq::<char>::empty() + seq!['V', 'e', 'c', '<'] + opening(rest, true));
                    assert(opened(w, nullable) == k + 1);
                }
            },
        }
    }
}

/// Marking a nullable type non-null takes exactly its outermost `Option`
/// away: the Rust type of a type that does not start with `!` is `Option`
/// around the Rust type of the same type with `!` added.
pub proof fn law_non_null_drops_the_outer_option(w: Seq<WrappingType>, base: Seq<char>)
    requires
        w.len() == 0 || w[0] == WrappingType::List,
    ensures
        rust_output_type(w, true, base) == optional(
            true,
            rust_output_type(seq![WrappingType::NonNull] + w, true, base),
        ),
{
    let nw = seq![WrappingType::NonNull] + w;
    assert(nw.drop_first() == w);
    assert(nw[0] == WrappingType::NonNull);
    assert(rust_output_type(nw, true, base) == rust_output_type(w, false, base));
    if w.len() > 0 {
        let inner = seq!['V', 'e', 'c', '<'] + rust_output_type(w.drop_first(), true, base) + seq!['>'];
        assert(rust_output_type(w, false, base) == optional(false, inner));
        assert(rust_output_type(w, true, base) == optional(true, inner));
    }
}

/// Appends the Rust type name for the GraphQL type name `name`.
fn push_rust_scalar_name(s: &mut String, name: &str)
    ensures
        final(s)@ == old(s)@ + rust_scalar_name(name@),
{
    proof {
        reveal_strlit("Int");
        reveal_strlit("Float");
        reveal_strlit("Boolean");
        reveal_strlit("Id");
        reveal_strlit("i32");
        reveal_strlit("f64");
        reveal_strlit("bool");
        reveal_strlit("cynic::Id");
        assert("Int"@ =~= seq!['I', 'n', 't']);
        assert("Float"@ =~= seq!['F', 'l', 'o', 'a', 't']);
        assert("Boolean"@ =~= seq!['B', 'o', 'o', 'l', 'e', 'a', 'n']);
        assert("Id"@ =~= seq!['I', 'd']);
        assert("i32"@ =~= seq!['i', '3', '2']);
        assert("f64"@ =~= seq!['f', '6', '4']);
        assert("bool"@ =~= seq!['b', 'o', 'o', 'l']);
        assert("cynic::Id"@ =~= seq!['c', 'y', 'n', 'i', 'c', ':', ':', 'I', 'd']);
    }
    if str_eq(name, "Int") {
        s.append("i32");
    } else if str_eq(name, "Float") {
        s.append("f64");
    } else if str_eq(name, "Boolean") {
        s.append("bool");
    } else if str_eq(name, "Id") {
        s.append("cynic::Id");
    } else {
        s.append(name);
    }
}

impl RustOutputFieldType {
    /// The Rust type: `Option<..>` around every nullable layer, `Vec<..>`
    /// for every list, and the Rust name of the GraphQL type inside.
    pub fn to_string(&self) -> (r: String)
        ensures
            r@ == rust_output_type(self.wrappers@, true, rust_scalar_name(self.name@)),
    {
        proof {
            reveal_strlit("Option<");
            reveal_strlit("Vec<");
            assert("Option<"@ =~= seq!['O', 'p', 't', 'i', 'o', 'n', '<']);
            assert("Vec<"@ =~= seq!['V', 'e', 'c', '<']);
        }
        let w = self.wrappers.iter();
        let ghost ws = self.wrappers@;
        let mut out = String::new();
        let mut nullable = true;
        let mut n_brackets: u128 = 0;
        let mut i: usize = 0;
        assert(ws.skip(0) == ws);
        while i < w.len()
            invariant
                w@ == ws,
                "Option<"@ == seq!['O', 'p', 't', 'i', 'o', 'n', '<'],
                "Vec<"@ == seq!['V', 'e', 'c', '<'],
                i <= w@.len(),
                n_brackets <= 2 * i,
                out@ + opening(ws.skip(i as int), nullable) == opening(ws, true),
                n_brackets + opened(ws.skip(i as int), nullable) == opened(ws, true),
            decreases w.len() - i,
        {
            assert(ws.skip(i as int).drop_first() == ws.skip(i + 1));
            assert(ws.skip(i as int)[0] == ws[i as int]);
            match w[i] {
                WrappingType::NonNull => {
                    nullable = false;
                },
                WrappingType::List => {
                    let ghost out0 = out@;
                    let ghost pre: Seq<char> = if nullable {
                        seq!['O', 'p', 't', 'i', 'o', 'n', '<']
                    } else {
                        Seq::empty()
                    };
                    if nullable {
                        out.append("Option<");
                        n_brackets = n_brackets + 1;
                    }
                    nullable = true;
                    n_brackets = n_brackets + 1;
                    out.append("Vec<");
                    proof {
                        let rest = opening(ws.skip(i + 1), true);
                        assert(out@ == out0 + pre + seq!['V', 'e', 'c', '<']);
                        assert(out0 + (pre + seq!['V', 'e', 'c', '<'] + rest) == out@ + rest);
                    }
                },
            }
            i = i + 1;
        }
        if nullable {
            out.append("Option<");
            n_brackets = n_brackets + 1;
        }
        assert(out@ == opening(ws, true));
        assert(n_brackets == opened(ws, true));
        push_rust_scalar_name(&mut out, self.name.as_str());
        let ghost before = out@;
        let mut k: u128 = 0;
        while k < n_brackets
            invariant
                k <= n_brackets,
                out@ == before + closing(k as nat),
            decreases n_brackets - k,
        {
            string_push(&mut out, '>');
            k = k + 1;
        }
        proof {
            lemma_rust_output_type_shape(ws, true, rust_scalar_name(self.name@));
        }
        out
    }
}

/// The view of an optional string.
pub open spec fn string_opt(o: Option<String>) -> Option<Seq<char>> {
    match o {
        Some(v) => Some(v@),
        None => None,
    }
}

/// The GraphQL name an output field is renamed from: the field's name when
/// the field is aliased, or when turning the name into `snake_case` and
/// back into `camelCase` does not give the name back; none otherwise.
pub open spec fn field_rename(name: Seq<char>, alias: Option<Seq<char>>) -> Option<Seq<char>> {
    if alias is Some || camel_case(snake_case(name)) != name {
        Some(name)
    } else {
        None
    }
}

/// The Rust type name of a selected scalar field: the override for the
/// field `field` of the GraphQL type named `parent` (the coordinate
/// `parent.field`) if there is one, else
/// the Rust type given for the scalar `graphql_type`, else the scalar's name in
/// `PascalCase`.
pub open spec fn scalar_field_type_name(
    parent: Seq<char>,
    field: Seq<char>,
    graphql_type: Seq<char>,
    overrides: Map<(Seq<char>, Seq<char>), Seq<char>>,
    scalar_types: Map<Seq<char>, Seq<char>>,
) -> Seq<char> {
    if overrides.contains_key((parent, field)) {
        overrides[(parent, field)]
    } else if scalar_types.contains_key(graphql_type) {
        scalar_types[graphql_type]
    } else {
        pascal_case(graphql_type)
    }
}

/// The rename of a field selected as `name`, aliased by `alias`.
fn rename_for(name: &str, alias: &Option<String>) -> (r: Option<String>)
    ensures
        string_opt(r) == field_rename(name@, string_opt(*alias)),
{
    if alias.is_some() {
        return Some(name.to_owned());
    }
    rename_for_name(name)
}

/// The rename of a field named `name` that has no alias: the name itself
/// when `snake_case` then `camelCase` does not give it back.
pub fn rename_for_name(name: &str) -> (r: Option<String>)
    ensures
        string_opt(r) == field_rename(name@, None),
{
    let snake = to_snake_case(name);
    let round_trip = to_camel_case(snake.as_str());
    if !str_eq(round_trip.as_str(), name) {
        Some(name.to_owned())
    } else {
        None
    }
}

/// The name of an output field for a selected field: its alias, or else
/// its name.
fn output_name(field: &FieldSelection) -> (r: String)
    ensures
        r@ == match field.alias {
            Some(a) => a@,
            None => field.name@,
        },
{
    match &field.alias {
        Some(a) => a.clone(),
        None => field.name.clone(),
    }
}

impl OutputField {
    /// The output field for a selected scalar field of the GraphQL type
    /// named `parent_type`, whose type in the schema is
    /// `field_type`: named by its alias or name, renamed as `field_rename`
    /// says, and typed by `scalar_field_type_name` with the field's wrappers.
    pub fn for_scalar_field(
        parent_type: &str,
        field: &FieldSelection,
        field_type: &TypeRef,
        overrides: &OverrideMap,
        scalar_types: &ScalarTypeMap,
    ) -> (r: OutputField)
        requires
            overrides.wf(),
            scalar_types.wf(),
        ensures
            r.name@ == match field.alias {
                Some(a) => a@,
                None => field.name@,
            },
            string_opt(r.rename) == field_rename(field.name@, string_opt(field.alias)),
            r.field_type.name@ == scalar_field_type_name(
                parent_type@,
                field.name@,
                field_type.name@,
                overrides@,
                scalar_types@,
            ),
            r.field_type.wrappers@ == field_type.wrappers@,
    {
        let graphql_type = match overrides.get(parent_type, field.name.as_str()) {
            Some(t) => t.to_owned(),
            None => match scalar_types.get(field_type.name.as_str()) {
                Some(t) => t.to_owned(),
                None => to_pascal_case(field_type.name.as_str()),
            },
        };
        OutputField {
            name: output_name(field),
            rename: rename_for(field.name.as_str(), &field.alias),
            field_type: RustOutputFieldType { name: graphql_type, wrappers: field_type.wrappers.duplicate() },
        }
    }

    /// The output field for a selected field with a selection set of its
    /// own, whose fragment is named `fragment_name`: named and renamed as
    /// a scalar field is, typed by the fragment's name with the field's
    /// wrappers.
    pub fn for_composite_field(field: &FieldSelection, field_type: &TypeRef, fragment_name: String) -> (r: OutputField)
        ensures
            r.name@ == match field.alias {
                Some(a) => a@,
                None => field.name@,
            },
            string_opt(r.rename) == field_rename(field.name@, string_opt(field.alias)),
            r.field_type.name@ == fragment_name@,
            r.field_type.wrappers@ == field_type.wrappers@,
    {
        OutputField {
            name: output_name(field),
            rename: rename_for(field.name.as_str(), &field.alias),
            field_type: RustOutputFieldType { name: fragment_name, wrappers: field_type.wrappers.duplicate() },
        }
    }

    /// The output field for a spread of the fragment named `target_name`:
    /// named by the fragment's name in `snake_case`, never renamed, and
    /// typed by the fragment's name, never optional.
    pub fn for_spread(target_name: String) -> (r: OutputField)
        ensures
            r.name@ == snake_case(target_name@),
            r.rename is None,
            r.field_type.name@ == target_name@,
            r.field_type.wrappers@ == seq![WrappingType::NonNull],
    {
        let name = to_snake_case(target_name.as_str());
        OutputField {
            name,
            rename: None,
            field_type: RustOutputFieldType { name: target_name, wrappers: TypeWrappers::none().wrap_non_null() },
        }
    }
}

/// A generated query fragment struct: its fields, the schema type it is a
/// fragment of, the variables struct it takes, the registered schema it
/// belongs to, and its name.
pub struct QueryFragment {
    pub fields: Vec<OutputField>,
    pub target_type: String,
    pub variable_struct_name: Option<String>,
    pub schema_name: Option<String>,
    pub name: String,
}

/// A generated enum over the fragments of the types an abstract type can
/// be: the names of those fragments, the abstract type, the variables
/// struct it takes, its name, and the registered schema it belongs to.
pub struct InlineFragments {
    pub inner_type_names: Vec<String>,
    pub target_type: String,
    pub variable_struct_name: Option<String>,
    pub name: String,
    pub schema_name: Option<String>,
}

/// A generated enum for an enum type of the schema.
pub struct Enum<'a> {
    pub definition: &'a SchemaType,
    pub schema_name: Option<String>,
}

/// A generated struct for a custom scalar of the schema.
pub struct Scalar<'a> {
    pub definition: &'a SchemaType,
    pub schema_name: Option<String>,
}

/// Everything generated for a query.
pub struct Output<'a> {
    pub query_fragments: Vec<QueryFragment>,
    pub inline_fragments: Vec<InlineFragments>,
    pub input_objects: Vec<InputObject<'a>>,
    pub enums: Vec<Enum<'a>>,
    pub scalars: Vec<Scalar<'a>>,
    pub variable_structs: VariableStructs,
}

/// Gives every item of `items` the schema name `schema_name`, in place.
fn name_schema_query_fragments<'a>(items: &mut Vec<QueryFragment>, schema_name: &str)
    ensures
        final(items)@.len() == old(items)@.len(),
        forall|i: int|
            0 <= i < final(items)@.len() ==> ((#[trigger] final(items)@[i]).schema_name matches Some(n) && n@ == schema_name@) 
                && final(items)@[i] == (QueryFragment { schema_name: final(items)@[i].schema_name, ..old(items)@[i] }),
{
    let ghost before = items@;
    assert(before.len() == items.len());
    let mut rest: Vec<QueryFragment> = Vec::new();
    std::mem::swap(&mut rest, items);
    let mut i: usize = 0;
    while rest.len() > 0
        invariant
            i + rest@.len() == before.len(),
            before.len() <= usize::MAX,
            rest@ == before.subrange(i as int, before.len() as int),
            items@.len() == i,
            forall|k: int|
                0 <= k < i ==> ((#[trigger] items@[k]).schema_name matches Some(n) && n@ == schema_name@) 
                    && items@[k] == (QueryFragment { schema_name: items@[k].schema_name, ..before[k] }),
        decreases rest.len(),
    {
        let mut item = rest.remove(0);
        item.schema_name = Some(schema_name.to_owned());
        items.push(item);
        i = i + 1;
    }
}

/// Gives every item of `items` the schema name `schema_name`, in place.
fn name_schema_inline_fragments<'a>(items: &mut Vec<InlineFragments>, schema_name: &str)
    ensures
        final(items)@.len() == old(items)@.len(),
        forall|i: int|
            0 <= i < final(items)@.len() ==> ((#[trigger] final(items)@[i]).schema_name matches Some(n) && n@ == schema_name@) 
                && final(items)@[i] == (InlineFragments { schema_name: final(items)@[i].schema_name, ..old(items)@[i] }),
{
    let ghost before = items@;
    assert(before.len() == items.len());
    let mut rest: Vec<InlineFragments> = Vec::new();
    std::mem::swap(&mut rest, items);
    let mut i: usize = 0;
    while rest.len() > 0
        invariant
            i + rest@.len() == before.len(),
            before.len() <= usize::MAX,
            rest@ == before.subrange(i as int, before.len() as int),
            items@.len() == i,
            forall|k: int|
                0 <= k < i ==> ((#[trigger] items@[k]).schema_name matches Some(n) && n@ == schema_name@) 
                    && items@[k] == (InlineFragments { schema_name: items@[k].schema_name, ..before[k] }),
        decreases rest.len(),
    {
        let mut item = rest.remove(0);
        item.schema_name = Some(schema_name.to_owned());
        items.push(item);
        i = i + 1;
    }
}

/// Gives every item of `items` the schema name `schema_name`, in place.
fn name_schema_input_objects<'a>(items: &mut Vec<InputObject<'a>>, schema_name: &str)
    ensures
        final(items)@.len() == old(items)@.len(),
        forall|i: int|
            0 <= i < final(items)@.len() ==> ((#[trigger] final(items)@[i]).schema_name matches Some(n) && n@ == schema_name@) 
                && final(items)@[i] == (InputObject { schema_name: final(items)@[i].schema_name, ..old(items)@[i] }),
{
    let ghost before = items@;
    assert(before.len() == items.len());
    let mut rest: Vec<InputObject<'a>> = Vec::new();
    std::mem::swap(&mut rest, items);
    let mut i: usize = 0;
    while rest.len() > 0
        invariant
            i + rest@.len() == before.len(),
            before.len() <= usize::MAX,
            rest@ == before.subrange(i as int, before.len() as int),
            items@.len() == i,
            forall|k: int|
                0 <= k < i ==> ((#[trigger] items@[k]).schema_name matches Some(n) && n@ == schema_name@) 
                    && items@[k] == (InputObject { schema_name: items@[k].schema_name, ..before[k] }),
        decreases rest.len(),
    {
        let mut item = rest.remove(0);
        item.schema_name = Some(schema_name.to_owned());
        items.push(item);
        i = i + 1;
    }
}

/// Gives every item of `items` the schema name `schema_name`, in place.
fn name_schema_enums<'a>(items: &mut Vec<Enum<'a>>, schema_name: &str)
    ensures
        final(items)@.len() == old(items)@.len(),
        forall|i: int|
            0 <= i < final(items)@.len() ==> ((#[trigger] final(items)@[i]).schema_name matches Some(n) && n@ == schema_name@) 
                && final(items)@[i] == (Enum { schema_name: final(items)@[i].schema_name, ..old(items)@[i] }),
{
    let ghost before = items@;
    assert(before.len() == items.len());
    let mut rest: Vec<Enum<'a>> = Vec::new();
    std::mem::swap(&mut rest, items);
    let mut i: usize = 0;
    while rest.len() > 0
        invariant
            i + rest@.len() == before.len(),
            before.len() <= usize::MAX,
            rest@ == before.subrange(i as int, before.len() as int),
            items@.len() == i,
            forall|k: int|
                0 <= k < i ==> ((#[trigger] items@[k]).schema_name matches Some(n) && n@ == schema_name@) 
                    && items@[k] == (Enum { schema_name: items@[k].schema_name, ..before[k] }),
        decreases rest.len(),
    {
        let mut item = rest.remove(0);
        item.schema_name = Some(schema_name.to_owned());
        items.push(item);
        i = i + 1;
    }
}

/// Gives every item of `items` the schema name `schema_name`, in place.
fn name_schema_scalars<'a>(items: &mut Vec<Scalar<'a>>, schema_name: &str)
    ensures
        final(items)@.len() == old(items)@.len(),
        forall|i: int|
            0 <= i < final(items)@.len() ==> ((#[trigger] final(items)@[i]).schema_name matches Some(n) && n@ == schema_name@) 
                && final(items)@[i] == (Scalar { schema_name: final(items)@[i].schema_name, ..old(items)@[i] }),
{
    let ghost before = items@;
    assert(before.len() == items.len());
    let mut rest: Vec<Scalar<'a>> = Vec::new();
    std::mem::swap(&mut rest, items);
    let mut i: usize = 0;
    while rest.len() > 0
        invariant
            i + rest@.len() == before.len(),
            before.len() <= usize::MAX,
            rest@ == before.subrange(i as int, before.len() as int),
            items@.len() == i,
            forall|k: int|
                0 <= k < i ==> ((#[trigger] items@[k]).schema_name matches Some(n) && n@ == schema_name@) 
                    && items@[k] == (Scalar { schema_name: items@[k].schema_name, ..before[k] }),
        decreases rest.len(),
    {
        let mut item = rest.remove(0);
        item.schema_name = Some(schema_name.to_owned());
        items.push(item);
        i = i + 1;
    }
}

/// With a schema name, gives it to every query fragment, inline fragment
/// enum, enum, input object and scalar of the output, and changes nothing
/// else; without one, changes nothing.
pub fn add_schema_name<'a>(output: &mut Output<'a>, schema_name: Option<&str>)
    ensures
        schema_name is None ==> *final(output) == *old(output),
        schema_name matches Some(name) ==> {
            &&& final(output).variable_structs == old(output).variable_structs
            &&& final(output).query_fragments@.len() == old(output).query_fragments@.len()
            &&& forall|i: int|
                0 <= i < final(output).query_fragments@.len() ==> ((#[trigger] final(output).query_fragments@[i]).schema_name matches Some(n) && n@ == name@)
                     && final(output).query_fragments@[i] == (QueryFragment {
                    schema_name: final(output).query_fragments@[i].schema_name,
                    ..old(output).query_fragments@[i]
                })
            &&& final(output).inline_fragments@.len() == old(output).inline_fragments@.len()
            &&& forall|i: int|
                0 <= i < final(output).inline_fragments@.len() ==> ((#[trigger] final(output).inline_fragments@[i]).schema_name matches Some(n) && n@ == name@)
                     && final(output).inline_fragments@[i] == (InlineFragments {
                    schema_name: final(output).inline_fragments@[i].schema_name,
                    ..old(output).inline_fragments@[i]
                })
            &&& final(output).input_objects@.len() == old(output).input_objects@.len()
            &&& forall|i: int|
                0 <= i < final(output).input_objects@.len() ==> ((#[trigger] final(output).input_objects@[i]).schema_name matches Some(n) && n@ == name@)
                     && final(output).input_objects@[i] == (InputObject {
                    schema_name: final(output).input_objects@[i].schema_name,
                    ..old(output).input_objects@[i]
                })
            &&& final(output).enums@.len() == old(output).enums@.len()
            &&& forall|i: int|
                0 <= i < final(output).enums@.len() ==> ((#[trigger] final(output).enums@[i]).schema_name matches Some(n) && n@ == name@)
                     && final(output).enums@[i] == (Enum {
                    schema_name: final(output).enums@[i].schema_name,
                    ..old(output).enums@[i]
                })
            &&& final(output).scalars@.len() == old(output).scalars@.len()
            &&& forall|i: int|
                0 <= i < final(output).scalars@.len() ==> ((#[trigger] final(output).scalars@[i]).schema_name matches Some(n) && n@ == name@)
                     && final(output).scalars@[i] == (Scalar {
                    schema_name: final(output).scalars@[i].schema_name,
                    ..old(output).scalars@[i]
                })
        },
{
    let name = match schema_name {
        Some(n) => n,
        None => return,
    };
    name_schema_query_fragments(&mut output.query_fragments, name);
    name_schema_inline_fragments(&mut output.inline_fragments, name);
    name_schema_input_objects(&mut output.input_objects, name);
    name_schema_enums(&mut output.enums, name);
    name_schema_scalars(&mut output.scalars, name);
}

/// The declaration generated for a custom scalar named `graphql`: a
/// newtype over `String` named in `PascalCase`, with the GraphQL name given
/// when it differs from the Rust one.
pub open spec fn scalar_declaration(graphql: Seq<char>) -> Seq<char> {
    let rust = pascal_case(graphql);
    "#[derive(cynic::Scalar, Debug, Clone)]\n"@ + (if graphql != rust {
        "#[cynic(graphql_type = \""@ + graphql + "\")]\n"@
    } else {
        Seq::empty()
    }) + "pub struct "@ + rust + "(pub String);\n"@
}

impl<'a> Scalar<'a> {
    /// The declaration of the scalar's Rust type.
    pub fn to_string(&self) -> (r: String)
        ensures
            r@ == scalar_declaration(self.definition.name@),
    {
        let graphql = self.definition.name.as_str();
        let rust = to_pascal_case(graphql);
        let mut out = String::new();
        out.append("#[derive(cynic::Scalar, Debug, Clone)]\n");
        let ghost head = out@;
        if !str_eq(graphql, rust.as_str()) {
            out.append("#[cynic(graphql_type = \"");
            out.append(graphql);
            out.append("\")]\n");
        }
        let ghost mid = out@;
        out.append("pub struct ");
        out.append(rust.as_str());
        out.append("(pub String);\n");
        proof {
            let g = graphql@;
            let middle: Seq<char> = if g != pascal_case(g) {
                "#[cynic(graphql_type = \""@ + g + "\")]\n"@
            } else {
                Seq::empty()
            };
            assert(mid == head + middle);
            assert(out@ == head + middle + "pub struct "@ + rust@ + "(pub String);\n"@);
        }
        out
    }
}

/// A custom scalar's declaration names the GraphQL type with a
/// `#[cynic(graphql_type = "...")]` line whenever the GraphQL name differs
/// from the Rust name (its `PascalCase` form) in any character; when the
/// two are the same text it is just the derive line and the struct line.
/// Either way it declares the struct under the Rust name.
pub proof fn law_scalar_declaration_names_a_renamed_type(graphql: Seq<char>)
    ensures
        graphql != pascal_case(graphql) ==> contains_text(
            scalar_declaration(graphql),
            "#[cynic(graphql_type = \""@ + graphql + "\")]\n"@,
        ),
        graphql == pascal_case(graphql) ==> scalar_declaration(graphql) == "#[derive(cynic::Scalar, Debug, Clone)]\n"@
            + "pub struct "@ + graphql + "(pub String);\n"@,
        contains_text(scalar_declaration(graphql), "pub struct "@ + pascal_case(graphql) + "(pub String);\n"@),
        scalar_declaration(graphql).len() >= "#[derive(cynic::Scalar, Debug, Clone)]\n"@.len()
            + ("pub struct "@ + pascal_case(graphql) + "(pub String);\n"@).len(),
        scalar_declaration(graphql).subrange(0, "#[derive(cynic::Scalar, Debug, Clone)]\n"@.len() as int)
            == "#[derive(cynic::Scalar, Debug, Clone)]\n"@,
        scalar_declaration(graphql).subrange(
            scalar_declaration(graphql).len() - ("pub struct "@ + pascal_case(graphql) + "(pub String);\n"@).len(),
            scalar_declaration(graphql).len() as int,
        ) == "pub struct "@ + pascal_case(graphql) + "(pub String);\n"@,
{
    let rust = pascal_case(graphql);
    let head = "#[derive(cynic::Scalar, Debug, Clone)]\n"@;
    let attr = "#[cynic(graphql_type = \""@ + graphql + "\")]\n"@;
    let tail = "pub struct "@ + rust + "(pub String);\n"@;
    let mid: Seq<char> = if graphql != rust {
        attr
    } else {
        Seq::empty()
    };
    let d = scalar_declaration(graphql);
    assert(d == head + mid + tail);
    assert(d.subrange(0, head.len() as int) =~= head);
    assert(d.subrange(d.len() - tail.len(), d.len() as int) =~= tail);
    if graphql != rust {
        assert(scalar_declaration(graphql) == head + attr + tail);
        lemma_contains_text_within(head, attr, tail);
        lemma_contains_text_within(head + attr, tail, Seq::<char>::empty());
        assert(head + attr + tail + Seq::<char>::empty() =~= head + attr + tail);
    } else {
        assert(scalar_declaration(graphql) == head + Seq::<char>::empty() + tail);
        assert(head + Seq::<char>::empty() + tail =~= head + tail);
        lemma_contains_text_within(head, tail, Seq::<char>::empty());
        assert(head + tail + Seq::<char>::empty() =~= head + tail);
        assert(tail == "pub struct "@ + graphql + "(pub String);\n"@);
        assert(head + tail =~= head + "pub struct "@ + graphql + "(pub String);\n"@);
    }
}

} // verus!
