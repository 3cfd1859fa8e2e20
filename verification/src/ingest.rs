//! Finding the types that operations start from.

use vstd::prelude::*;
use crate::document::{FieldDefinition, RootOperationTypeDefinition, Schema, SchemaType, TypeKind};
use crate::text::str_eq;
use crate::executable::{FragmentDefinition, InlineFragment, OperationType, Selection};

verus! {

/// The schema types (by position) that queries, mutations and
/// subscriptions start from, where the schema has them.
pub struct RootDefinitions {
    pub query: Option<usize>,
    pub mutation: Option<usize>,
    pub subscription: Option<usize>,
}

/// The entries of all `schema` definitions and extensions, in order.
pub open spec fn flat_roots(defs: Seq<Vec<RootOperationTypeDefinition>>) -> Seq<RootOperationTypeDefinition>
    decreases defs.len(),
{
    if defs.len() == 0 {
        Seq::empty()
    } else {
        flat_roots(defs.drop_last()) + defs.last()@
    }
}

/// The type named by the last of `entries` for the operation type `kind`.
pub open spec fn last_named(entries: Seq<RootOperationTypeDefinition>, kind: OperationType) -> Option<Seq<char>>
    decreases entries.len(),
{
    if entries.len() == 0 {
        None
    } else if entries.last().operation_type == kind {
        Some(entries.last().named_type@)
    } else {
        last_named(entries.drop_last(), kind)
    }
}

/// The name of the type that operations of type `kind` start from: the
/// last one a `schema` definition or extension names; when the schema has
/// no `schema` definition, the type named `default` if the document
/// defines one (a type that is only extended does not count).
pub open spec fn root_name(schema: Schema, kind: OperationType, default: Seq<char>) -> Option<Seq<char>> {
    match last_named(flat_roots(schema.schema_definitions@), kind) {
        Some(n) => Some(n),
        None => if schema.schema_definitions@.len() == 0 && schema.defines_type(default) {
            Some(default)
        } else {
            None
        },
    }
}

/// The position of the type that operations of type `kind` start from,
/// when the schema has a type of that name.
pub open spec fn root_position(schema: Schema, kind: OperationType, default: Seq<char>) -> Option<int> {
    match root_name(schema, kind, default) {
        Some(n) => if schema.has_type(n) {
            Some(schema.type_position(n))
        } else {
            None
        },
        None => None,
    }
}

/// The view of an optional position.
pub open spec fn position_view(p: Option<usize>) -> Option<int> {
    match p {
        Some(i) => Some(i as int),
        None => None,
    }
}

proof fn lemma_last_named_push(s: Seq<RootOperationTypeDefinition>, x: RootOperationTypeDefinition, kind: OperationType)
    ensures
        last_named(s.push(x), kind) == if x.operation_type == kind {
            Some(x.named_type@)
        } else {
            last_named(s, kind)
        },
{
    assert(s.push(x).drop_last() == s);
}

/// The type name that the last entry of `defs` for `kind` gives, if any.
fn last_root_name<'a>(defs: &'a Vec<Vec<RootOperationTypeDefinition>>, kind: OperationType) -> (r: Option<&'a str>)
    ensures
        match r {
            Some(n) => last_named(flat_roots(defs@), kind) == Some(n@),
            None => last_named(flat_roots(defs@), kind) is None,
        },
{
    let mut found: Option<&'a str> = None;
    let mut i: usize = 0;
    while i < defs.len()
        invariant
            i <= defs@.len(),
            match found {
                Some(n) => last_named(flat_roots(defs@.take(i as int)), kind) == Some(n@),
                None => last_named(flat_roots(defs@.take(i as int)), kind) is None,
            },
        decreases defs.len() - i,
    {
        let entries = &defs[i];
        let ghost before = flat_roots(defs@.take(i as int));
        proof {
            assert(defs@.take(i + 1).drop_last() == defs@.take(i as int));
            assert(defs@.take(i + 1).last() == *entries);
        }
        let mut j: usize = 0;
        while j < entries.len()
            invariant
                j <= entries@.len(),
                match found {
                    Some(n) => last_named(before + entries@.take(j as int), kind) == Some(n@),
                    None => last_named(before + entries@.take(j as int), kind) is None,
                },
            decreases entries.len() - j,
        {
            proof {
                lemma_last_named_push(before + entries@.take(j as int), entries@[j as int], kind);
                assert((before + entries@.take(j as int)).push(entries@[j as int]) == before + entries@.take(j + 1));
            }
            if entries[j].operation_type == kind {
                found = Some(entries[j].named_type.as_str());
            }
            j = j + 1;
        }
        assert(entries@.take(entries@.len() as int) == entries@);
        i = i + 1;
    }
    assert(defs@.take(defs@.len() as int) == defs@);
    found
}

/// The position of the root type for `kind`, where `default` names the
/// type to fall back to.
fn find_root(schema: &Schema, kind: OperationType, default: &str) -> (r: Option<usize>)
    requires
        schema.wf(),
    ensures
        position_view(r) == root_position(*schema, kind, default@),
{
    let name = match last_root_name(&schema.schema_definitions, kind) {
        Some(n) => n,
        None => {
            if schema.schema_definitions.len() == 0 && !schema.is_extension_only(default) {
                default
            } else {
                return None;
            }
        },
    };
    schema.type_index(name)
}

/// The types that queries, mutations and subscriptions start from: those
/// that the last `schema` entries for them name, or, in a schema without a
/// `schema` definition, the types named `Query`, `Mutation` and
/// `Subscription` where the document defines them.
pub fn find_roots(schema: &Schema) -> (r: RootDefinitions)
    requires
        schema.wf(),
    ensures
        position_view(r.query) == root_position(*schema, OperationType::Query, "Query"@),
        position_view(r.mutation) == root_position(*schema, OperationType::Mutation, "Mutation"@),
        position_view(r.subscription) == root_position(*schema, OperationType::Subscription, "Subscription"@),
{
    RootDefinitions {
        query: find_root(schema, OperationType::Query, "Query"),
        mutation: find_root(schema, OperationType::Mutation, "Mutation"),
        subscription: find_root(schema, OperationType::Subscription, "Subscription"),
    }
}

/// What a selected field is defined by: the `__typename` field that every
/// composite type has, or the field at a position of its type's fields.
#[derive(Clone, Copy, Debug, PartialEq, Eq, Structural)]
pub enum FieldDefinitionRef {
    Typename,
    Field(usize),
}

/// A field found on a type: the position of the field's named type in the
/// schema, and the field's definition.
pub struct FieldDetails {
    pub type_node: usize,
    pub definition: FieldDefinitionRef,
}

/// The fields a type declares: those of an object or an interface, none
/// for any other kind of type.
pub open spec fn type_fields(t: SchemaType) -> Seq<FieldDefinition> {
    match t.kind {
        TypeKind::Object { fields } => fields@,
        TypeKind::Interface { interface_fields } => interface_fields@,
        _ => Seq::empty(),
    }
}

/// The position of the first of `fields` named `name`.
pub open spec fn field_position(fields: Seq<FieldDefinition>, name: Seq<char>) -> Option<int> {
    if exists|i: int| 0 <= i < fields.len() && #[trigger] fields[i].name@ == name {
        Some(
            choose|i: int|
                0 <= i < fields.len() && #[trigger] fields[i].name@ == name && forall|j: int|
                    0 <= j < i ==> #[trigger] fields[j].name@ != name,
        )
    } else {
        None
    }
}

/// The name every composite type answers with its own name.
pub open spec fn typename_field_name() -> Seq<char> {
    seq!['_', '_', 't', 'y', 'p', 'e', 'n', 'a', 'm', 'e']
}

/// What selecting the field `name` on the type at `type_node` reads: for
/// `__typename` a `String`, else the first field of the type with that name
/// and its named type, or nothing when the type has no such field.
pub open spec fn field_lookup(schema: Schema, type_node: int, name: Seq<char>) -> Option<(int, FieldDefinitionRef)> {
    if name == typename_field_name() {
        Some((schema.type_position(seq!['S', 't', 'r', 'i', 'n', 'g']), FieldDefinitionRef::Typename))
    } else {
        let fields = type_fields(schema.types@[type_node]);
        match field_position(fields, name) {
            Some(p) => Some((schema.type_position(fields[p].ty.name@), FieldDefinitionRef::Field(p as usize))),
            None => None,
        }
    }
}

/// Finds the first of `fields` named `name`.
fn find_field_definition(fields: &Vec<FieldDefinition>, name: &str) -> (r: Option<usize>)
    ensures
        match r {
            Some(i) => i < fields@.len() && field_position(fields@, name@) == Some(i as int),
            None => field_position(fields@, name@) is None,
        },
{
    let mut i: usize = 0;
    while i < fields.len()
        invariant
            i <= fields@.len(),
            forall|j: int| 0 <= j < i ==> #[trigger] fields@[j].name@ != name@,
        decreases fields.len() - i,
    {
        if str_eq(fields[i].name.as_str(), name) {
            assert(fields@[i as int].name@ == name@);
            let ghost p = field_position(fields@, name@);
            assert(p is Some);
            let ghost k = p->0;
            assert(k == i) by {
                if k < i {
                    assert(fields@[k].name@ != name@);
                } else if k > i {
                    assert(fields@[i as int].name@ != name@);
                }
            }
            return Some(i);
        }
        i = i + 1;
    }
    None
}

/// Finds the field `name` on the type at `type_node`: `__typename` on any
/// type reads a `String`; any other name is looked up among the type's
/// fields (an object's or an interface's; other kinds have none).
pub fn find_field(schema: &Schema, type_node: usize, name: &str) -> (r: Option<FieldDetails>)
    requires
        schema.wf(),
        type_node < schema.types@.len(),
        name@ == typename_field_name() ==> schema.has_type(seq!['S', 't', 'r', 'i', 'n', 'g']),
        name@ != typename_field_name() ==> match field_position(type_fields(schema.types@[type_node as int]), name@) {
            Some(p) => schema.has_type(type_fields(schema.types@[type_node as int])[p].ty.name@),
            None => true,
        },
    ensures
        match (r, field_lookup(*schema, type_node as int, name@)) {
            (Some(d), Some((t, def))) => d.type_node == t && d.definition == def && t < schema.types@.len(),
            (None, None) => true,
            _ => false,
        },
{
    proof {
        reveal_strlit("__typename");
        reveal_strlit("String");
        assert("__typename"@ =~= typename_field_name());
        assert("String"@ =~= seq!['S', 't', 'r', 'i', 'n', 'g']);
    }
    if str_eq(name, "__typename") {
        let t = schema.type_index("String");
        return match t {
            Some(t) => Some(FieldDetails { type_node: t, definition: FieldDefinitionRef::Typename }),
            None => None,
        };
    }
    let fields = match &schema.types[type_node].kind {
        TypeKind::Object { fields } => fields,
        TypeKind::Interface { interface_fields } => interface_fields,
        _ => {
            assert(type_fields(schema.types@[type_node as int]).len() == 0);
            return None;
        },
    };
    assert(fields@ == type_fields(schema.types@[type_node as int]));
    match find_field_definition(fields, name) {
        Some(p) => {
            let t = schema.type_index(fields[p].ty.name.as_str());
            match t {
                Some(t) => Some(FieldDetails { type_node: t, definition: FieldDefinitionRef::Field(p) }),
                None => None,
            }
        },
        None => None,
    }
}

/// The position of the first of `fragments` named `name`.
pub open spec fn fragment_position(fragments: Seq<FragmentDefinition>, name: Seq<char>) -> Option<int> {
    if exists|i: int| 0 <= i < fragments.len() && #[trigger] fragments[i].name@ == name {
        Some(
            choose|i: int|
                0 <= i < fragments.len() && #[trigger] fragments[i].name@ == name && forall|j: int|
                    0 <= j < i ==> #[trigger] fragments[j].name@ != name,
        )
    } else {
        None
    }
}

/// Every fragment spread among `selections` names a fragment of `fragments`.
pub open spec fn spreads_known(selections: Seq<Selection>, fragments: Seq<FragmentDefinition>) -> bool {
    forall|i: int|
        0 <= i < selections.len() ==> match #[trigger] selections[i] {
            Selection::FragmentSpread(sp) => fragment_position(fragments, sp.fragment_name@) is Some,
            _ => true,
        }
}

/// The selection is a field other than `__typename`.
pub open spec fn selects_field(s: Selection) -> bool {
    match s {
        Selection::Field(f) => f.name@ != typename_field_name(),
        _ => false,
    }
}

/// The selection applies to another type than `current`: an inline fragment
/// whose type condition names another type, or a spread of a fragment on
/// another type.
pub open spec fn on_other_type(s: Selection, current: Seq<char>, fragments: Seq<FragmentDefinition>) -> bool {
    match s {
        Selection::Field(_) => false,
        Selection::InlineFragment(f) => match f.type_condition {
            Some(t) => t@ != current,
            None => false,
        },
        Selection::FragmentSpread(sp) => match fragment_position(fragments, sp.fragment_name@) {
            Some(p) => fragments[p].type_condition@ != current,
            None => false,
        },
    }
}

/// A selection set needs a query fragment when it selects a field other
/// than `__typename`.
pub open spec fn needs_query_fragment_spec(selections: Seq<Selection>) -> bool {
    exists|i: int| 0 <= i < selections.len() && selects_field(#[trigger] selections[i])
}

/// A selection set needs inline fragments when one of its selections
/// applies to another type than the one it is selected on.
pub open spec fn needs_inline_fragments_spec(
    selections: Seq<Selection>,
    current: Seq<char>,
    fragments: Seq<FragmentDefinition>,
) -> bool {
    exists|i: int| 0 <= i < selections.len() && on_other_type(#[trigger] selections[i], current, fragments)
}

/// The positions, in order, of the selections that apply to another type
/// (`other`) or to the current type (`!other`).
pub open spec fn split_positions(
    selections: Seq<Selection>,
    current: Seq<char>,
    fragments: Seq<FragmentDefinition>,
    other: bool,
) -> Seq<usize>
    decreases selections.len(),
{
    if selections.len() == 0 {
        Seq::empty()
    } else {
        let rest = split_positions(selections.drop_last(), current, fragments, other);
        if on_other_type(selections.last(), current, fragments) == other {
            rest.push((selections.len() - 1) as usize)
        } else {
            rest
        }
    }
}

proof fn lemma_split_positions_nonempty(
    selections: Seq<Selection>,
    current: Seq<char>,
    fragments: Seq<FragmentDefinition>,
    other: bool,
    i: int,
)
    requires
        0 <= i < selections.len(),
        on_other_type(selections[i], current, fragments) == other,
    ensures
        split_positions(selections, current, fragments, other).len() > 0,
    decreases selections.len(),
{
    if i < selections.len() - 1 {
        lemma_split_positions_nonempty(selections.drop_last(), current, fragments, other, i);
    }
}

/// Splitting a selection set sends each of its selections to exactly one
/// side: the selections on the current type, or those on other types.
pub proof fn law_split_is_a_partition(
    selections: Seq<Selection>,
    current: Seq<char>,
    fragments: Seq<FragmentDefinition>,
    i: usize,
)
    requires
        i < selections.len(),
        selections.len() <= usize::MAX,
    ensures
        split_positions(selections, current, fragments, false).contains(i) != split_positions(
            selections,
            current,
            fragments,
            true,
        ).contains(i),
        split_positions(selections, current, fragments, on_other_type(selections[i as int], current, fragments)).contains(i),
    decreases selections.len(),
{
    let n = selections.len() - 1;
    let d = selections.drop_last();
    lemma_split_positions_below(d, current, fragments, false);
    lemma_split_positions_below(d, current, fragments, true);
    let other = on_other_type(selections.last(), current, fragments);
    let with_last = split_positions(selections, current, fragments, other);
    let without_last = split_positions(selections, current, fragments, !other);
    assert(with_last == split_positions(d, current, fragments, other).push(n as usize));
    assert(without_last == split_positions(d, current, fragments, !other));
    if i == n {
        assert(with_last[with_last.len() - 1] == i);
        assert(!without_last.contains(i));
    } else {
        law_split_is_a_partition(d, current, fragments, i);
        assert(d[i as int] == selections[i as int]);
        let before = split_positions(d, current, fragments, other);
        if before.contains(i) {
            let k = choose|k: int| 0 <= k < before.len() && before[k] == i;
            assert(with_last[k] == i);
        } else {
            assert forall|k: int| 0 <= k < with_last.len() implies with_last[k] != i by {
                if k < before.len() {
                    assert(with_last[k] == before[k]);
                }
            }
        }
    }
}

pub(crate) proof fn lemma_split_positions_below(
    selections: Seq<Selection>,
    current: Seq<char>,
    fragments: Seq<FragmentDefinition>,
    other: bool,
)
    requires
        selections.len() <= usize::MAX,
    ensures
        forall|k: int|
            0 <= k < split_positions(selections, current, fragments, other).len() ==> (#[trigger] split_positions(
                selections,
                current,
                fragments,
                other,
            )[k]) < selections.len(),
    decreases selections.len(),
{
    if selections.len() > 0 {
        let d = selections.drop_last();
        lemma_split_positions_below(d, current, fragments, other);
        let r = split_positions(d, current, fragments, other);
        let all = split_positions(selections, current, fragments, other);
        if on_other_type(selections.last(), current, fragments) == other {
            assert(all == r.push((selections.len() - 1) as usize));
            assert forall|k: int| 0 <= k < all.len() implies (#[trigger] all[k]) < selections.len() by {
                if k < r.len() {
                    assert(all[k] == r[k]);
                }
            }
        } else {
            assert(all == r);
        }
    }
}

/// Finds the first of `fragments` named `name`.
fn fragment_index(fragments: &Vec<FragmentDefinition>, name: &str) -> (r: Option<usize>)
    ensures
        match r {
            Some(i) => i < fragments@.len() && fragment_position(fragments@, name@) == Some(i as int),
            None => fragment_position(fragments@, name@) is None,
        },
{
    let mut i: usize = 0;
    while i < fragments.len()
        invariant
            i <= fragments@.len(),
            forall|j: int| 0 <= j < i ==> #[trigger] fragments@[j].name@ != name@,
        decreases fragments.len() - i,
    {
        if str_eq(fragments[i].name.as_str(), name) {
            assert(fragments@[i as int].name@ == name@);
            let ghost p = fragment_position(fragments@, name@);
            assert(p is Some);
            let ghost k = p->0;
            assert(k == i) by {
                if k < i {
                    assert(fragments@[k].name@ != name@);
                } else if k > i {
                    assert(fragments@[i as int].name@ != name@);
                }
            }
            return Some(i);
        }
        i = i + 1;
    }
    None
}

/// Whether `selection` applies to another type than `current`.
fn is_on_other_type(selection: &Selection, current: &str, fragments: &Vec<FragmentDefinition>) -> (r: bool)
    ensures
        r == on_other_type(*selection, current@, fragments@),
{
    match selection {
        Selection::Field(_) => false,
        Selection::InlineFragment(f) => match &f.type_condition {
            Some(t) => !str_eq(t.as_str(), current),
            None => false,
        },
        Selection::FragmentSpread(sp) => match fragment_index(fragments, sp.fragment_name.as_str()) {
            Some(p) => !str_eq(fragments[p].type_condition.as_str(), current),
            None => false,
        },
    }
}

/// Whether the selection set selects a field other than `__typename`, and
/// so needs a query fragment.
pub fn needs_query_fragment(selections: &Vec<Selection>) -> (r: bool)
    ensures
        r == needs_query_fragment_spec(selections@),
{
    proof {
        reveal_strlit("__typename");
        assert("__typename"@ =~= typename_field_name());
    }
    let mut i: usize = 0;
    while i < selections.len()
        invariant
            i <= selections@.len(),
            "__typename"@ == typename_field_name(),
            forall|j: int| 0 <= j < i ==> !selects_field(#[trigger] selections@[j]),
        decreases selections.len() - i,
    {
        if let Selection::Field(f) = &selections[i] {
            if !str_eq(f.name.as_str(), "__typename") {
                assert(selects_field(selections@[i as int]));
                return true;
            }
        }
        i = i + 1;
    }
    false
}

/// Whether one of the selections applies to another type than `current`
/// (the type the set is selected on), and so needs inline fragments.
pub fn needs_inline_fragments(selections: &Vec<Selection>, current: &str, fragments: &Vec<FragmentDefinition>) -> (r: bool)
    ensures
        r == needs_inline_fragments_spec(selections@, current@, fragments@),
{
    let mut i: usize = 0;
    while i < selections.len()
        invariant
            i <= selections@.len(),
            forall|j: int| 0 <= j < i ==> !on_other_type(#[trigger] selections@[j], current@, fragments@),
        decreases selections.len() - i,
    {
        if is_on_other_type(&selections[i], current, fragments) {
            assert(on_other_type(selections@[i as int], current@, fragments@));
            return true;
        }
        i = i + 1;
    }
    false
}

/// Splits a selection set into the positions of the selections on the
/// current type and those on other types, each in order.
pub fn split_selections(selections: &Vec<Selection>, current: &str, fragments: &Vec<FragmentDefinition>) -> (r: (
    Vec<usize>,
    Vec<usize>,
))
    ensures
        r.0@ == split_positions(selections@, current@, fragments@, false),
        r.1@ == split_positions(selections@, current@, fragments@, true),
{
    let mut on_current: Vec<usize> = Vec::new();
    let mut on_other: Vec<usize> = Vec::new();
    let mut i: usize = 0;
    while i < selections.len()
        invariant
            i <= selections@.len(),
            on_current@ == split_positions(selections@.take(i as int), current@, fragments@, false),
            on_other@ == split_positions(selections@.take(i as int), current@, fragments@, true),
        decreases selections.len() - i,
    {
        proof {
            assert(selections@.take(i + 1).drop_last() == selections@.take(i as int));
            assert(selections@.take(i + 1).last() == selections@[i as int]);
        }
        if is_on_other_type(&selections[i], current, fragments) {
            on_other.push(i);
        } else {
            on_current.push(i);
        }
        i = i + 1;
    }
    assert(selections@.take(selections@.len() as int) == selections@);
    (on_current, on_other)
}

/// What a selection set becomes: a query fragment, an inline fragment (all
/// its selections on other types), or both, split by the positions of the
/// selections on the current type and those on other types.
pub enum SelectionSetShape {
    QueryFragment,
    InlineFragment,
    Split { query: Vec<usize>, inline: Vec<usize> },
}

/// Decides what the selection set on the type named `current` becomes: a
/// set that needs both a query fragment and inline fragments is split in
/// two, neither part empty; one that only needs inline fragments becomes
/// an inline fragment; any other a query fragment.
pub fn selection_set_shape(selections: &Vec<Selection>, current: &str, fragments: &Vec<FragmentDefinition>) -> (r: SelectionSetShape)
    requires
        spreads_known(selections@, fragments@),
    ensures
        (r is Split) == (needs_query_fragment_spec(selections@) && needs_inline_fragments_spec(
            selections@,
            current@,
            fragments@,
        )),
        (r is InlineFragment) == (!needs_query_fragment_spec(selections@) && needs_inline_fragments_spec(
            selections@,
            current@,
            fragments@,
        )),
        (r is QueryFragment) == !needs_inline_fragments_spec(selections@, current@, fragments@),
        r matches SelectionSetShape::Split { query, inline } ==> {
            &&& query@ == split_positions(selections@, current@, fragments@, false)
            &&& inline@ == split_positions(selections@, current@, fragments@, true)
            &&& query@.len() > 0
            &&& inline@.len() > 0
        },
{
    let need_query = needs_query_fragment(selections);
    let need_inline = needs_inline_fragments(selections, current, fragments);
    if need_query && need_inline {
        let (query, inline) = split_selections(selections, current, fragments);
        proof {
            let i = choose|i: int| 0 <= i < selections@.len() && selects_field(#[trigger] selections@[i]);
            lemma_split_positions_nonempty(selections@, current@, fragments@, false, i);
            let k = choose|k: int|
                0 <= k < selections@.len() && on_other_type(#[trigger] selections@[k], current@, fragments@);
            lemma_split_positions_nonempty(selections@, current@, fragments@, true, k);
        }
        SelectionSetShape::Split { query, inline }
    } else if need_inline {
        SelectionSetShape::InlineFragment
    } else {
        SelectionSetShape::QueryFragment
    }
}

/// The type an inline fragment's selections apply to: the type its type
/// condition names, or the enclosing type when it has none.
pub fn inline_fragment_type(schema: &Schema, type_node: usize, fragment: &InlineFragment) -> (r: usize)
    requires
        schema.wf(),
        type_node < schema.types@.len(),
        fragment.type_condition matches Some(t) ==> schema.has_type(t@),
    ensures
        r < schema.types@.len(),
        r == match fragment.type_condition {
            Some(t) => schema.type_position(t@),
            None => type_node as int,
        },
{
    match &fragment.type_condition {
        Some(t) => match schema.type_index(t.as_str()) {
            Some(i) => i,
            None => type_node,
        },
        None => type_node,
    }
}

} // verus!
