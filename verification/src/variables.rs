//! The fields of a variables struct: the variables and nested structs it
//! holds, and the fragments that use it.

use vstd::prelude::*;
use crate::document::{TypeRef, Value};
use crate::executable::{Argument, Directive, FieldSelection, FragmentSpread, VariableDefinition};
use crate::graph::typed_value::value_width;
use crate::maps::ScalarTypeMap;
use crate::output::InputObject;
use crate::processing::{FragmentId, VariableStruct, VariableStructField};
use crate::casing::{snake_case, to_snake_case};
use crate::output::{field_rename, rename_for_name};
use crate::type_spec::{input_type_spec, TypeSpec};
use crate::text::str_eq;
use crate::wrappers::WrappingType;

verus! {

/// What a variables struct is linked to while the structs of a query are
/// worked out: a variable it holds (with the position of its definition
/// among its operation's variable definitions), a nested struct, or a
/// fragment that uses the struct.
pub enum VariableStructChild {
    Variable { position: usize, definition: VariableDefinition },
    NestedStruct { name: String },
    UsedByFragment { fragment: FragmentId },
}

/// The name, type name and wrappers of a variable definition.
pub open spec fn definition_view(d: VariableDefinition) -> (Seq<char>, Seq<char>, Seq<WrappingType>) {
    (d.name@, d.ty.name@, d.ty.wrappers@)
}

/// A copy of a variable definition.
pub fn copy_definition(d: &VariableDefinition) -> (r: VariableDefinition)
    ensures
        definition_view(r) == definition_view(*d),
{
    VariableDefinition {
        name: d.name.clone(),
        ty: TypeRef { name: d.ty.name.clone(), wrappers: d.ty.wrappers.duplicate() },
    }
}

/// The child is a variable named `name`.
pub open spec fn variable_named(c: VariableStructChild, name: Seq<char>) -> bool {
    match c {
        VariableStructChild::Variable { definition, .. } => definition.name@ == name,
        _ => false,
    }
}

/// The child at `i` is a variable that no variable before it shares its
/// name with.
pub open spec fn first_of_its_name(children: Seq<VariableStructChild>, i: int) -> bool {
    match children[i] {
        VariableStructChild::Variable { definition, .. } => forall|j: int|
            0 <= j < i ==> !variable_named(#[trigger] children[j], definition.name@),
        _ => false,
    }
}

/// The positions, in order, of the variables that come first of their name.
pub open spec fn kept_variables(children: Seq<VariableStructChild>) -> Seq<usize>
    decreases children.len(),
{
    if children.len() == 0 {
        Seq::empty()
    } else {
        let rest = kept_variables(children.drop_last());
        if first_of_its_name(children, children.len() - 1) {
            rest.push((children.len() - 1) as usize)
        } else {
            rest
        }
    }
}

/// The names of the nested structs, in order.
pub open spec fn nested_structs(children: Seq<VariableStructChild>) -> Seq<Seq<char>>
    decreases children.len(),
{
    if children.len() == 0 {
        Seq::empty()
    } else {
        let rest = nested_structs(children.drop_last());
        match children.last() {
            VariableStructChild::NestedStruct { name } => rest.push(name@),
            _ => rest,
        }
    }
}

/// The fragments that use the struct, in order.
pub open spec fn using_fragments(children: Seq<VariableStructChild>) -> Seq<FragmentId>
    decreases children.len(),
{
    if children.len() == 0 {
        Seq::empty()
    } else {
        let rest = using_fragments(children.drop_last());
        match children.last() {
            VariableStructChild::UsedByFragment { fragment } => rest.push(fragment),
            _ => rest,
        }
    }
}

/// The position of the definition of the variable child at `k`.
pub open spec fn child_position(children: Seq<VariableStructChild>, k: int) -> int {
    match children[k] {
        VariableStructChild::Variable { position, .. } => position as int,
        _ => 0,
    }
}

/// `order` lists children by the positions of their definitions; of two
/// with the same position, the earlier child comes first.
pub open spec fn stably_sorted(children: Seq<VariableStructChild>, order: Seq<usize>) -> bool {
    forall|a: int, b: int|
        0 <= a < b < order.len() ==> {
            ||| child_position(children, #[trigger] order[a] as int) < child_position(children, #[trigger] order[b] as int)
            ||| (child_position(children, order[a] as int) == child_position(children, order[b] as int) && order[a] < order[b])
        }
}

/// The field is the variable child `c`.
pub open spec fn field_is_child(f: VariableStructField, c: VariableStructChild) -> bool {
    match (f, c) {
        (
            VariableStructField::Variable { position, definition },
            VariableStructChild::Variable { position: p, definition: d },
        ) => position == p && definition_view(definition) == definition_view(d),
        _ => false,
    }
}

proof fn lemma_first_of_its_name_take(children: Seq<VariableStructChild>, n: int, i: int)
    requires
        0 <= i < n <= children.len(),
    ensures
        first_of_its_name(children.take(n), i) == first_of_its_name(children, i),
{
    let t = children.take(n);
    assert(t[i] == children[i]);
    assert forall|j: int| 0 <= j < i implies t[j] == children[j] by {}
    if let VariableStructChild::Variable { definition, .. } = children[i] {
        if first_of_its_name(children, i) {
            assert forall|j: int| 0 <= j < i implies !variable_named(#[trigger] t[j], definition.name@) by {
                assert(t[j] == children[j]);
            }
        }
        if first_of_its_name(t, i) {
            assert forall|j: int| 0 <= j < i implies !variable_named(#[trigger] children[j], definition.name@) by {
                assert(t[j] == children[j]);
            }
        }
    }
}

/// Some name of `seen` is `name`.
pub open spec fn seen_has(seen: Seq<&str>, name: Seq<char>) -> bool {
    exists|k: int| 0 <= k < seen.len() && (#[trigger] seen[k])@ == name
}

/// Some child before `i` is a variable named `name`.
pub open spec fn named_before(children: Seq<VariableStructChild>, i: int, name: Seq<char>) -> bool {
    exists|j: int| 0 <= j < i && variable_named(#[trigger] children[j], name)
}

/// Whether some name of `seen` is `name`.
fn seen_contains(seen: &Vec<&str>, name: &str) -> (r: bool)
    ensures
        r == seen_has(seen@, name@),
{
    let mut k: usize = 0;
    while k < seen.len()
        invariant
            k <= seen@.len(),
            forall|j: int| 0 <= j < k ==> (#[trigger] seen@[j])@ != name@,
        decreases seen.len() - k,
    {
        if str_eq(seen[k], name) {
            assert(seen@[k as int]@ == name@);
            return true;
        }
        k = k + 1;
    }
    false
}

/// Splits the children into the nested struct fields, the positions of the
/// variables that come first of their name, and the using fragments.
fn split_children(children: &Vec<VariableStructChild>) -> (r: (Vec<VariableStructField>, Vec<usize>, Vec<FragmentId>))
    ensures
        r.0@.len() == nested_structs(children@).len(),
        forall|i: int|
            0 <= i < r.0@.len() ==> (#[trigger] r.0@[i] matches VariableStructField::NestedStruct { name }
                && name@ == nested_structs(children@)[i]),
        r.1@ == kept_variables(children@),
        r.2@ == using_fragments(children@),
{
    let mut nested: Vec<VariableStructField> = Vec::new();
    let mut kept: Vec<usize> = Vec::new();
    let mut uses: Vec<FragmentId> = Vec::new();
    let mut seen: Vec<&str> = Vec::new();
    let mut i: usize = 0;
    while i < children.len()
        invariant
            i <= children@.len(),
            nested@.len() == nested_structs(children@.take(i as int)).len(),
            forall|k: int|
                0 <= k < nested@.len() ==> (#[trigger] nested@[k] matches VariableStructField::NestedStruct { name }
                    && name@ == nested_structs(children@.take(i as int))[k]),
            kept@ == kept_variables(children@.take(i as int)),
            uses@ == using_fragments(children@.take(i as int)),
            forall|n: Seq<char>| #[trigger] seen_has(seen@, n) <==> named_before(children@, i as int, n),
        decreases children.len() - i,
    {
        let ghost pre = children@.take(i as int);
        let ghost next = children@.take(i + 1);
        proof {
            assert(next.drop_last() == pre);
            assert(next.last() == children@[i as int]);
            lemma_first_of_its_name_take(children@, i + 1, i as int);
        }
        match &children[i] {
            VariableStructChild::Variable { definition, .. } => {
                let name = definition.name.as_str();
                let known = seen_contains(&seen, name);
                proof {
                    if !known {
                        assert forall|j: int| 0 <= j < i implies !variable_named(#[trigger] children@[j], name@) by {
                            if variable_named(children@[j], name@) {
                                assert(named_before(children@, i as int, name@));
                                assert(seen_has(seen@, name@));
                            }
                        }
                        assert(first_of_its_name(children@, i as int));
                    } else {
                        assert(seen_has(seen@, name@));
                        assert(named_before(children@, i as int, name@));
                        let j = choose|j: int| 0 <= j < i && variable_named(#[trigger] children@[j], name@);
                        assert(!first_of_its_name(children@, i as int));
                    }
                }
                if !known {
                    kept.push(i);
                }
                let ghost old_seen = seen@;
                seen.push(name);
                proof {
                    assert forall|n: Seq<char>| #[trigger] seen_has(seen@, n) <==> named_before(children@, i + 1, n) by {
                        if exists|k: int| 0 <= k < seen@.len() && (#[trigger] seen@[k])@ == n {
                            let k = choose|k: int| 0 <= k < seen@.len() && (#[trigger] seen@[k])@ == n;
                            if k < old_seen.len() {
                                assert(old_seen[k]@ == n);
                                assert(seen_has(old_seen, n));
                                let j = choose|j: int| 0 <= j < i && variable_named(#[trigger] children@[j], n);
                                assert(0 <= j < i + 1 && variable_named(children@[j], n));
                            } else {
                                assert(variable_named(children@[i as int], n));
                            }
                        }
                        if exists|j: int| 0 <= j < i + 1 && variable_named(#[trigger] children@[j], n) {
                            let j = choose|j: int| 0 <= j < i + 1 && variable_named(#[trigger] children@[j], n);
                            if j < i {
                                assert(named_before(children@, i as int, n));
                                assert(seen_has(old_seen, n));
                                let k = choose|k: int| 0 <= k < old_seen.len() && (#[trigger] old_seen[k])@ == n;
                                assert(seen@[k] == old_seen[k]);
                            } else {
                                assert(seen@[old_seen.len() as int]@ == n);
                            }
                        }
                    }
                }
            },
            VariableStructChild::NestedStruct { name } => {
                nested.push(VariableStructField::NestedStruct { name: name.clone() });
                proof {
                    assert forall|n: Seq<char>| #[trigger] seen_has(seen@, n) <==> named_before(children@, i + 1, n) by {
                        if exists|j: int| 0 <= j < i + 1 && variable_named(#[trigger] children@[j], n) {
                            let j = choose|j: int| 0 <= j < i + 1 && variable_named(#[trigger] children@[j], n);
                            assert(j < i);
                        }
                    }
                }
            },
            VariableStructChild::UsedByFragment { fragment } => {
                uses.push(*fragment);
                proof {
                    assert forall|n: Seq<char>| #[trigger] seen_has(seen@, n) <==> named_before(children@, i + 1, n) by {
                        if exists|j: int| 0 <= j < i + 1 && variable_named(#[trigger] children@[j], n) {
                            let j = choose|j: int| 0 <= j < i + 1 && variable_named(#[trigger] children@[j], n);
                            assert(j < i);
                        }
                    }
                }
            },
        }
        i = i + 1;
    }
    assert(children@.take(children@.len() as int) == children@);
    (nested, kept, uses)
}

proof fn lemma_kept_variables(children: Seq<VariableStructChild>)
    requires
        children.len() <= usize::MAX,
    ensures
        forall|a: int|
            0 <= a < kept_variables(children).len() ==> {
                &&& (#[trigger] kept_variables(children)[a]) < children.len()
                &&& children[kept_variables(children)[a] as int] is Variable
                &&& first_of_its_name(children, kept_variables(children)[a] as int)
            },
        forall|a: int, b: int|
            0 <= a < b < kept_variables(children).len() ==> #[trigger] kept_variables(children)[a]
                < #[trigger] kept_variables(children)[b],
    decreases children.len(),
{
    if children.len() > 0 {
        let d = children.drop_last();
        lemma_kept_variables(d);
        let r = kept_variables(d);
        let k = kept_variables(children);
        assert forall|a: int| 0 <= a < r.len() implies children[r[a] as int] == d[r[a] as int] by {}
        assert(d == children.take(children.len() - 1));
        assert forall|a: int| 0 <= a < r.len() implies first_of_its_name(children, #[trigger] r[a] as int) by {
            lemma_first_of_its_name_take(children, children.len() - 1, r[a] as int);
        }
        if first_of_its_name(children, children.len() - 1) {
            let x = (children.len() - 1) as usize;
            assert(k == r.push(x));
            assert(children[x as int] is Variable);
            assert forall|a: int| 0 <= a < k.len() implies (#[trigger] k[a]) < children.len() && children[k[a] as int] is Variable
                && first_of_its_name(children, k[a] as int) by {
                if a < r.len() {
                    assert(k[a] == r[a]);
                }
            }
            assert forall|a: int, b: int| 0 <= a < b < k.len() implies #[trigger] k[a] < #[trigger] k[b] by {
                assert(k[a] == r[a]);
                if b < r.len() {
                    assert(k[b] == r[b]);
                }
            }
        } else {
            assert(k == r);
        }
    }
}

/// A variables struct never holds two variables of the same name: the
/// variables kept from what it is linked to have distinct names.
pub proof fn law_kept_variables_have_distinct_names(children: Seq<VariableStructChild>, a: int, b: int)
    requires
        children.len() <= usize::MAX,
        0 <= a < b < kept_variables(children).len(),
    ensures
        children[kept_variables(children)[a] as int] is Variable,
        children[kept_variables(children)[b] as int] is Variable,
        children[kept_variables(children)[a] as int]->definition.name@ != children[kept_variables(
            children,
        )[b] as int]->definition.name@,
{
    lemma_kept_variables(children);
    let k = kept_variables(children);
    let x = k[a] as int;
    let y = k[b] as int;
    assert(x < y);
    assert(first_of_its_name(children, y));
    assert(!variable_named(children[x], children[y]->definition.name@));
}

/// The position of the definition of the variable child at `k`.
fn position_at(children: &Vec<VariableStructChild>, k: usize) -> (r: usize)
    requires
        k < children@.len(),
    ensures
        r == child_position(children@, k as int),
{
    match &children[k] {
        VariableStructChild::Variable { position, .. } => *position,
        _ => 0,
    }
}

/// Orders the variable children at `kept` by the positions of their
/// definitions, keeping the order of children with the same position.
fn sort_by_position(children: &Vec<VariableStructChild>, kept: &Vec<usize>) -> (r: Vec<usize>)
    requires
        forall|a: int| 0 <= a < kept@.len() ==> (#[trigger] kept@[a]) < children@.len(),
        forall|a: int, b: int| 0 <= a < b < kept@.len() ==> #[trigger] kept@[a] < #[trigger] kept@[b],
    ensures
        r@.to_multiset() == kept@.to_multiset(),
        stably_sorted(children@, r@),
{
    let mut out: Vec<usize> = Vec::new();
    let mut i: usize = 0;
    assert(out@ == kept@.take(0));
    while i < kept.len()
        invariant
            i <= kept@.len(),
            forall|a: int| 0 <= a < kept@.len() ==> (#[trigger] kept@[a]) < children@.len(),
            forall|a: int, b: int| 0 <= a < b < kept@.len() ==> #[trigger] kept@[a] < #[trigger] kept@[b],
            out@.to_multiset() == kept@.take(i as int).to_multiset(),
            forall|a: int| 0 <= a < out@.len() ==> exists|j: int| 0 <= j < i && #[trigger] out@[a] == kept@[j],
            forall|a: int| 0 <= a < out@.len() ==> (#[trigger] out@[a]) < children@.len(),
            stably_sorted(children@, out@),
        decreases kept.len() - i,
    {
        let x = kept[i];
        let px = position_at(children, x);
        let mut p: usize = 0;
        while p < out.len() && position_at(children, out[p]) <= px
            invariant
                p <= out@.len(),
                x < children@.len(),
                px == child_position(children@, x as int),
                forall|a: int| 0 <= a < out@.len() ==> (#[trigger] out@[a]) < children@.len(),
                forall|a: int| 0 <= a < p ==> child_position(children@, #[trigger] out@[a] as int) <= px,
            decreases out.len() - p,
        {
            p = p + 1;
        }
        let ghost old_out = out@;
        proof {
            assert forall|a: int| 0 <= a < old_out.len() implies (#[trigger] old_out[a]) < x by {
                let j = choose|j: int| 0 <= j < i && old_out[a] == kept@[j];
                assert(kept@[j] < kept@[i as int]);
            }
        }
        out.insert(p, x);
        proof {
            assert(out@ == old_out.insert(p as int, x));
            vstd::seq_lib::to_multiset_insert(old_out, p as int, x);
            assert(kept@.take(i + 1) == kept@.take(i as int).push(x));
            vstd::seq_lib::to_multiset_build(kept@.take(i as int), x);
            let o = out@;
            assert forall|a: int, b: int| 0 <= a < b < o.len() implies {
                ||| child_position(children@, #[trigger] o[a] as int) < child_position(children@, #[trigger] o[b] as int)
                ||| (child_position(children@, o[a] as int) == child_position(children@, o[b] as int) && o[a] < o[b])
            } by {
                if b < p {
                    assert(o[a] == old_out[a] && o[b] == old_out[b]);
                } else if b == p {
                    assert(o[a] == old_out[a] && o[b] == x);
                    assert(child_position(children@, old_out[a] as int) <= px);
                } else if a == p {
                    assert(o[a] == x && o[b] == old_out[b - 1]);
                    assert(child_position(children@, old_out[p as int] as int) > px);
                    if b - 1 > p {
                        assert(child_position(children@, old_out[p as int] as int) <= child_position(children@, old_out[b - 1] as int));
                    }
                } else if a < p {
                    assert(o[a] == old_out[a] && o[b] == old_out[b - 1]);
                } else {
                    assert(o[a] == old_out[a - 1] && o[b] == old_out[b - 1]);
                }
            }
            assert forall|a: int| 0 <= a < o.len() implies exists|j: int| 0 <= j < i + 1 && #[trigger] o[a] == kept@[j] by {
                if a < p {
                    assert(o[a] == old_out[a]);
                } else if a == p {
                    assert(o[a] == kept@[i as int]);
                } else {
                    assert(o[a] == old_out[a - 1]);
                }
            }
            assert forall|a: int| 0 <= a < o.len() implies (#[trigger] o[a]) < children@.len() by {
                if a < p {
                    assert(o[a] == old_out[a]);
                } else if a > p {
                    assert(o[a] == old_out[a - 1]);
                }
            }
        }
        i = i + 1;
    }
    assert(kept@.take(kept@.len() as int) == kept@);
    out
}

/// Builds a variables struct named `name` from what it is linked to: its
/// fields are the nested structs, in order, then the variables that come
/// first of their name, ordered by the positions of their definitions (of
/// two with the same position, the earlier first); it also gives the
/// fragments that use the struct, in order.
pub fn assemble_variable_struct(name: String, children: &Vec<VariableStructChild>) -> (r: (VariableStruct, Vec<FragmentId>))
    ensures
        r.0.name@ == name@,
        r.1@ == using_fragments(children@),
        r.0.fields@.len() == nested_structs(children@).len() + kept_variables(children@).len(),
        forall|i: int|
            0 <= i < nested_structs(children@).len() ==> (#[trigger] r.0.fields@[i] matches VariableStructField::NestedStruct { name: n }
                && n@ == nested_structs(children@)[i]),
        exists|order: Seq<usize>|
            {
                &&& order.to_multiset() == kept_variables(children@).to_multiset()
                &&& stably_sorted(children@, order)
                &&& order.len() == kept_variables(children@).len()
                &&& forall|j: int|
                    0 <= j < order.len() ==> field_is_child(
                        #[trigger] r.0.fields@[nested_structs(children@).len() + j],
                        children@[order[j] as int],
                    )
            },
{
    let (mut fields, kept, uses) = split_children(children);
    let len = children.len();
    proof {
        assert(children@.len() == len);
        lemma_kept_variables(children@);
    }
    let order = sort_by_position(children, &kept);
    proof {
        order@.to_multiset_ensures();
        kept@.to_multiset_ensures();
        assert forall|a: int| 0 <= a < order@.len() implies (#[trigger] order@[a]) < children@.len() && children@[order@[a] as int] is Variable by {
            assert(order@.contains(order@[a]));
            assert(order@.to_multiset().count(order@[a]) > 0);
            assert(kept@.to_multiset().count(order@[a]) > 0);
            assert(kept@.contains(order@[a]));
            let k = choose|k: int| 0 <= k < kept@.len() && kept@[k] == order@[a];
        }
    }
    let n = fields.len();
    let mut j: usize = 0;
    while j < order.len()
        invariant
            n == nested_structs(children@).len(),
            j <= order@.len(),
            fields@.len() == n + j,
            forall|a: int| 0 <= a < order@.len() ==> (#[trigger] order@[a]) < children@.len() && children@[order@[a] as int] is Variable,
            forall|i: int|
                0 <= i < n ==> (#[trigger] fields@[i] matches VariableStructField::NestedStruct { name: nm }
                    && nm@ == nested_structs(children@)[i]),
            forall|a: int| 0 <= a < j ==> field_is_child(#[trigger] fields@[n + a], children@[order@[a] as int]),
        decreases order.len() - j,
    {
        let k = order[j];
        let ghost before = fields@;
        match &children[k] {
            VariableStructChild::Variable { position, definition } => {
                fields.push(VariableStructField::Variable { position: *position, definition: copy_definition(definition) });
            },
            _ => {
                assert(false);
            },
        }
        proof {
            assert forall|a: int| 0 <= a < j + 1 implies field_is_child(#[trigger] fields@[n + a], children@[order@[a] as int]) by {
                if a < j {
                    assert(fields@[n + a] == before[n + a]);
                }
            }
        }
        j = j + 1;
    }
    (VariableStruct { name, fields }, uses)
}

/// Whether the input object named `name` borrows, as the last entry of
/// `needs` with that name says; false when no entry has the name.
pub open spec fn needs_lifetime(needs: Seq<(String, bool)>, name: Seq<char>) -> bool
    decreases needs.len(),
{
    if needs.len() == 0 {
        false
    } else if needs.last().0@ == name {
        needs.last().1
    } else {
        needs_lifetime(needs.drop_last(), name)
    }
}

/// Whether the input object named `name` borrows, by `needs`.
fn lookup_needs_lifetime(needs: &Vec<(String, bool)>, name: &str) -> (r: bool)
    ensures
        r == needs_lifetime(needs@, name@),
{
    let mut k: usize = needs.len();
    assert(needs@.take(k as int) == needs@);
    while k > 0
        invariant
            k <= needs@.len(),
            needs_lifetime(needs@, name@) == needs_lifetime(needs@.take(k as int), name@),
        decreases k,
    {
        let ghost t = needs@.take(k as int);
        assert(t.drop_last() == needs@.take(k - 1));
        assert(t.last() == needs@[k - 1]);
        if str_eq(needs[k - 1].0.as_str(), name) {
            return needs[k - 1].1;
        }
        k = k - 1;
    }
    false
}

/// Each input object's name, and whether any of its fields borrows.
pub fn input_objects_need_lifetime(objects: &Vec<InputObject>) -> (r: Vec<(String, bool)>)
    ensures
        r@.len() == objects@.len(),
        forall|i: int|
            0 <= i < objects@.len() ==> {
                &&& (#[trigger] r@[i]).0@ == objects@[i].name@
                &&& r@[i].1 == exists|j: int|
                    0 <= j < objects@[i].fields@.len() && (#[trigger] objects@[i].fields@[j]).type_spec.contains_lifetime_a
            },
{
    let mut out: Vec<(String, bool)> = Vec::new();
    let mut i: usize = 0;
    while i < objects.len()
        invariant
            i <= objects@.len(),
            out@.len() == i,
            forall|a: int|
                0 <= a < i ==> {
                    &&& (#[trigger] out@[a]).0@ == objects@[a].name@
                    &&& out@[a].1 == exists|j: int|
                        0 <= j < objects@[a].fields@.len() && (#[trigger] objects@[a].fields@[j]).type_spec.contains_lifetime_a
                },
        decreases objects.len() - i,
    {
        let fields = &objects[i].fields;
        let mut any = false;
        let mut j: usize = 0;
        while j < fields.len()
            invariant
                j <= fields@.len(),
                any == exists|b: int| 0 <= b < j && (#[trigger] fields@[b]).type_spec.contains_lifetime_a,
            decreases fields.len() - j,
        {
            if fields[j].type_spec.contains_lifetime_a {
                any = true;
            }
            j = j + 1;
        }
        out.push((objects[i].name.clone(), any));
        i = i + 1;
    }
    out
}

/// The optional view of the Rust type a scalar is given.
pub open spec fn scalar_override(scalar_types: Map<Seq<char>, Seq<char>>, name: Seq<char>) -> Option<Seq<char>> {
    if scalar_types.contains_key(name) {
        Some(scalar_types[name])
    } else {
        None
    }
}

/// The Rust type of a field of a variables struct: for a variable, the
/// type of its definition (nullable unless marked `!`, the scalar's given
/// Rust type for a scalar, `<'a>` for an input object that borrows); for a
/// nested struct, its name, borrowing as `needs` says.
pub fn variable_field_type_spec(
    field: &VariableStructField,
    needs: &Vec<(String, bool)>,
    scalar_types: &ScalarTypeMap,
) -> (r: TypeSpec)
    requires
        scalar_types.wf(),
    ensures
        match field {
            VariableStructField::Variable { definition, .. } => (r.name@, r.contains_lifetime_a) == input_type_spec(
                definition.ty.name@,
                definition.ty.wrappers@,
                true,
                false,
                needs_lifetime(needs@, definition.ty.name@),
                scalar_override(scalar_types@, definition.ty.name@),
            ),
            VariableStructField::NestedStruct { name } => r.name@ == name@ && r.contains_lifetime_a
                == needs_lifetime(needs@, name@),
        },
{
    match field {
        VariableStructField::Variable { definition, .. } => {
            let ty = &definition.ty;
            let borrows = lookup_needs_lifetime(needs, ty.name.as_str());
            let given = scalar_types.get(ty.name.as_str());
            let r = TypeSpec::for_executable_type(ty, borrows, given);
            proof {
                assert(crate::type_spec::opt_view(given) == scalar_override(scalar_types@, ty.name@));
            }
            r
        },
        VariableStructField::NestedStruct { name } => {
            let borrows = lookup_needs_lifetime(needs, name.as_str());
            TypeSpec { name: name.clone(), contains_lifetime_a: borrows }
        },
    }
}

/// The names of the variables that a value uses, in the order they are
/// written, however deeply nested in lists and objects.
pub open spec fn value_variables(v: Value) -> Seq<Seq<char>>
    decreases v, value_width(v),
{
    match v {
        Value::Variable(name) => seq![name@],
        Value::List(items) => entries_variables(v, items@.len()),
        Value::Object(fields) => entries_variables(v, fields@.len()),
        _ => Seq::empty(),
    }
}

/// The names of the variables that the first `n` entries of a list or
/// object value use, in order.
pub open spec fn entries_variables(v: Value, n: nat) -> Seq<Seq<char>>
    decreases v, n,
{
    match v {
        Value::List(items) => if n == 0 || n > items@.len() {
            Seq::empty()
        } else {
            entries_variables(v, (n - 1) as nat) + value_variables(items@[n - 1])
        },
        Value::Object(fields) => if n == 0 || n > fields@.len() {
            Seq::empty()
        } else {
            entries_variables(v, (n - 1) as nat) + value_variables(fields@[n - 1].value)
        },
        _ => Seq::empty(),
    }
}

/// The names in a sequence of strings.
pub open spec fn names_view(v: Seq<String>) -> Seq<Seq<char>> {
    v.map_values(|s: String| s@)
}

proof fn lemma_names_push(v: Seq<String>, s: String)
    ensures
        names_view(v.push(s)) == names_view(v).push(s@),
{
    assert(names_view(v.push(s)) =~= names_view(v).push(s@));
}

/// Appends the names of the variables that `v` uses to `out`.
pub fn collect_value_variables(v: &Value, out: &mut Vec<String>)
    ensures
        names_view(final(out)@) == names_view(old(out)@) + value_variables(*v),
    decreases *v,
{
    match v {
        Value::Variable(name) => {
            let ghost before = out@;
            out.push(name.clone());
            proof {
                lemma_names_push(before, out@.last());
                assert(value_variables(*v) == seq![name@]);
            }
        },
        Value::List(items) => {
            let ghost start = names_view(out@);
            let mut i: usize = 0;
            while i < items.len()
                invariant
                    *v == Value::List(*items),
                    i <= items@.len(),
                    names_view(out@) == start + entries_variables(*v, i as nat),
                decreases items.len() - i,
            {
                proof {
                    let vs = *items;
                    assert(decreases_to!(*v => v->List_0));
                    assert(decreases_to!(vs => vs@));
                    assert(decreases_to!(vs@ => vs@[i as int]));
                    assert(decreases_to!(*v => vs@[i as int]));
                }
                collect_value_variables(&items[i], out);
                proof {
                    assert(entries_variables(*v, (i + 1) as nat) == entries_variables(*v, i as nat) + value_variables(items@[i as int]));
                }
                i = i + 1;
            }
        },
        Value::Object(fields) => {
            let ghost start = names_view(out@);
            let mut i: usize = 0;
            while i < fields.len()
                invariant
                    *v == Value::Object(*fields),
                    i <= fields@.len(),
                    names_view(out@) == start + entries_variables(*v, i as nat),
                decreases fields.len() - i,
            {
                proof {
                    let fs = *fields;
                    assert(decreases_to!(*v => v->Object_0));
                    assert(decreases_to!(fs => fs@));
                    assert(decreases_to!(fs@ => fs@[i as int]));
                    assert(decreases_to!(fs@[i as int] => fs@[i as int].value));
                    assert(decreases_to!(*v => fs@[i as int].value));
                }
                collect_value_variables(&fields[i].value, out);
                proof {
                    assert(entries_variables(*v, (i + 1) as nat) == entries_variables(*v, i as nat) + value_variables(fields@[i as int].value));
                }
                i = i + 1;
            }
        },
        _ => {},
    }
}

/// The names of the variables that the values of `arguments` use, in order.
pub open spec fn arguments_variables(arguments: Seq<Argument>) -> Seq<Seq<char>>
    decreases arguments.len(),
{
    if arguments.len() == 0 {
        Seq::empty()
    } else {
        arguments_variables(arguments.drop_last()) + value_variables(arguments.last().value)
    }
}

/// The names of the variables that the arguments of `directives` use, in
/// order.
pub open spec fn directives_variables(directives: Seq<Directive>) -> Seq<Seq<char>>
    decreases directives.len(),
{
    if directives.len() == 0 {
        Seq::empty()
    } else {
        directives_variables(directives.drop_last()) + arguments_variables(directives.last().arguments@)
    }
}

/// Appends the names of the variables that `arguments` use to `out`.
fn collect_arguments_variables(arguments: &Vec<Argument>, out: &mut Vec<String>)
    ensures
        names_view(final(out)@) == names_view(old(out)@) + arguments_variables(arguments@),
{
    let ghost start = names_view(out@);
    let mut i: usize = 0;
    while i < arguments.len()
        invariant
            i <= arguments@.len(),
            names_view(out@) == start + arguments_variables(arguments@.take(i as int)),
        decreases arguments.len() - i,
    {
        proof {
            assert(arguments@.take(i + 1).drop_last() == arguments@.take(i as int));
            assert(arguments@.take(i + 1).last() == arguments@[i as int]);
        }
        collect_value_variables(&arguments[i].value, out);
        i = i + 1;
    }
    assert(arguments@.take(arguments@.len() as int) == arguments@);
}

/// Appends the names of the variables that `directives` use to `out`.
fn collect_directives_variables(directives: &Vec<Directive>, out: &mut Vec<String>)
    ensures
        names_view(final(out)@) == names_view(old(out)@) + directives_variables(directives@),
{
    let ghost start = names_view(out@);
    let mut i: usize = 0;
    while i < directives.len()
        invariant
            i <= directives@.len(),
            names_view(out@) == start + directives_variables(directives@.take(i as int)),
        decreases directives.len() - i,
    {
        proof {
            assert(directives@.take(i + 1).drop_last() == directives@.take(i as int));
            assert(directives@.take(i + 1).last() == directives@[i as int]);
        }
        collect_arguments_variables(&directives[i].arguments, out);
        i = i + 1;
    }
    assert(directives@.take(directives@.len() as int) == directives@);
}

/// The names of the variables that a selected field uses: those in its
/// arguments, then those in its directives' arguments, in order.
pub fn field_variables(field: &FieldSelection) -> (r: Vec<String>)
    ensures
        names_view(r@) == arguments_variables(field.arguments@) + directives_variables(field.directives@),
{
    let mut out: Vec<String> = Vec::new();
    assert(names_view(out@) =~= Seq::<Seq<char>>::empty());
    collect_arguments_variables(&field.arguments, &mut out);
    collect_directives_variables(&field.directives, &mut out);
    out
}

/// The names of the variables that a fragment spread uses: those in its
/// directives' arguments, in order.
pub fn spread_variables(spread: &FragmentSpread) -> (r: Vec<String>)
    ensures
        names_view(r@) == directives_variables(spread.directives@),
{
    let mut out: Vec<String> = Vec::new();
    assert(names_view(out@) =~= Seq::<Seq<char>>::empty());
    collect_directives_variables(&spread.directives, &mut out);
    out
}

/// The position of the last of `definitions` named `name`: the definition
/// a name stands for when later definitions replace earlier ones.
pub open spec fn definition_for(definitions: Seq<VariableDefinition>, name: Seq<char>) -> Option<int>
    decreases definitions.len(),
{
    if definitions.len() == 0 {
        None
    } else if definitions.last().name@ == name {
        Some(definitions.len() - 1)
    } else {
        definition_for(definitions.drop_last(), name)
    }
}

/// Finds the definition that the variable `name` stands for.
fn find_definition(definitions: &Vec<VariableDefinition>, name: &str) -> (r: Option<usize>)
    ensures
        match r {
            Some(p) => p < definitions@.len() && definition_for(definitions@, name@) == Some(p as int),
            None => definition_for(definitions@, name@) is None,
        },
{
    let mut k: usize = definitions.len();
    assert(definitions@.take(k as int) == definitions@);
    while k > 0
        invariant
            k <= definitions@.len(),
            definition_for(definitions@, name@) == definition_for(definitions@.take(k as int), name@),
        decreases k,
    {
        let ghost t = definitions@.take(k as int);
        assert(t.drop_last() == definitions@.take(k - 1));
        assert(t.last() == definitions@[k - 1]);
        if str_eq(definitions[k - 1].name.as_str(), name) {
            return Some(k - 1);
        }
        k = k - 1;
    }
    None
}

/// The variables named by `names`, each as a child of a variables struct
/// that holds the definition the name stands for among `definitions` (the
/// last one of that name), in order.
pub fn variable_children(names: &Vec<String>, definitions: &Vec<VariableDefinition>) -> (r: Vec<VariableStructChild>)
    requires
        forall|i: int| 0 <= i < names@.len() ==> definition_for(definitions@, (#[trigger] names@[i])@) is Some,
    ensures
        r@.len() == names@.len(),
        forall|i: int|
            0 <= i < names@.len() ==> match #[trigger] r@[i] {
                VariableStructChild::Variable { position, definition } => {
                    &&& definition_for(definitions@, names@[i]@) == Some(position as int)
                    &&& definition_view(definition) == definition_view(definitions@[position as int])
                },
                _ => false,
            },
{
    let mut out: Vec<VariableStructChild> = Vec::new();
    let mut i: usize = 0;
    while i < names.len()
        invariant
            i <= names@.len(),
            out@.len() == i,
            forall|a: int| 0 <= a < names@.len() ==> definition_for(definitions@, (#[trigger] names@[a])@) is Some,
            forall|a: int|
                0 <= a < i ==> match #[trigger] out@[a] {
                    VariableStructChild::Variable { position, definition } => {
                        &&& definition_for(definitions@, names@[a]@) == Some(position as int)
                        &&& definition_view(definition) == definition_view(definitions@[position as int])
                    },
                    _ => false,
                },
        decreases names.len() - i,
    {
        let found = find_definition(definitions, names[i].as_str());
        match found {
            Some(p) => {
                out.push(VariableStructChild::Variable { position: p, definition: copy_definition(&definitions[p]) });
            },
            None => {
                assert(definition_for(definitions@, names@[i as int]@) is Some);
                return out;
            },
        }
        i = i + 1;
    }
    out
}

/// A variables struct with what its declaration needs: which input objects
/// borrow, and the Rust types given to scalars.
pub struct VariablesStructForDisplay<'v> {
    pub variable_struct: &'v VariableStruct,
    pub input_objects_need_lifetime: &'v Vec<(String, bool)>,
    pub scalar_types: &'v ScalarTypeMap,
}

/// The Rust type of a field of a variables struct, as `variable_field_type_spec`
/// gives it.
pub open spec fn field_type_spec(
    field: VariableStructField,
    needs: Seq<(String, bool)>,
    scalar_types: Map<Seq<char>, Seq<char>>,
) -> (Seq<char>, bool) {
    match field {
        VariableStructField::Variable { definition, .. } => input_type_spec(
            definition.ty.name@,
            definition.ty.wrappers@,
            true,
            false,
            needs_lifetime(needs, definition.ty.name@),
            scalar_override(scalar_types, definition.ty.name@),
        ),
        VariableStructField::NestedStruct { name } => (name@, needs_lifetime(needs, name@)),
    }
}

impl<'v> VariablesStructForDisplay<'v> {
    /// The Rust type of each field, in order.
    pub fn field_type_specs(&self) -> (r: Vec<TypeSpec>)
        requires
            self.scalar_types.wf(),
        ensures
            r@.len() == self.variable_struct.fields@.len(),
            forall|i: int|
                0 <= i < r@.len() ==> ((#[trigger] r@[i]).name@, r@[i].contains_lifetime_a) == field_type_spec(
                    self.variable_struct.fields@[i],
                    self.input_objects_need_lifetime@,
                    self.scalar_types@,
                ),
    {
        let fields = &self.variable_struct.fields;
        let mut out: Vec<TypeSpec> = Vec::new();
        let mut i: usize = 0;
        while i < fields.len()
            invariant
                self.scalar_types.wf(),
                fields == &self.variable_struct.fields,
                i <= fields@.len(),
                out@.len() == i,
                forall|a: int|
                    0 <= a < i ==> ((#[trigger] out@[a]).name@, out@[a].contains_lifetime_a) == field_type_spec(
                        fields@[a],
                        self.input_objects_need_lifetime@,
                        self.scalar_types@,
                    ),
            decreases fields.len() - i,
        {
            let t = variable_field_type_spec(&fields[i], self.input_objects_need_lifetime, self.scalar_types);
            out.push(t);
            i = i + 1;
        }
        out
    }

    /// The first lines of the struct's declaration: its derive, and its
    /// name with `<'a>` when any field borrows, up to the opening brace.
    pub fn declaration_head(&self) -> (r: String)
        requires
            self.scalar_types.wf(),
        ensures
            r@ == "#[derive(cynic::QueryVariables, Debug)]\npub struct "@ + self.variable_struct.name@ + (if exists|i: int|
                0 <= i < self.variable_struct.fields@.len() && field_type_spec(
                    #[trigger] self.variable_struct.fields@[i],
                    self.input_objects_need_lifetime@,
                    self.scalar_types@,
                ).1 {
                seq!['<', '\'', 'a', '>']
            } else {
                Seq::<char>::empty()
            }) + " {\n"@,
    {
        let specs = self.field_type_specs();
        let lifetime = TypeSpec::lifetime(&specs);
        let mut out = String::new();
        out.append("#[derive(cynic::QueryVariables, Debug)]\npub struct ");
        out.append(self.variable_struct.name.as_str());
        out.append(lifetime);
        out.append(" {\n");
        proof {
            let fs = self.variable_struct.fields@;
            let needs = self.input_objects_need_lifetime@;
            let st = self.scalar_types@;
            if exists|i: int| 0 <= i < specs@.len() && (#[trigger] specs@[i]).contains_lifetime_a {
                let i = choose|i: int| 0 <= i < specs@.len() && (#[trigger] specs@[i]).contains_lifetime_a;
                assert(field_type_spec(fs[i], needs, st).1);
            }
            if exists|i: int| 0 <= i < fs.len() && field_type_spec(#[trigger] fs[i], needs, st).1 {
                let i = choose|i: int| 0 <= i < fs.len() && field_type_spec(#[trigger] fs[i], needs, st).1;
                assert(specs@[i].contains_lifetime_a);
            }
        }
        out
    }

    /// The Rust name of each field (its name in `snake_case`) and the name
    /// it is renamed from when turning the Rust name into `camelCase` does
    /// not give the field's name back.
    pub fn field_names(&self) -> (r: Vec<(String, Option<String>)>)
        ensures
            r@.len() == self.variable_struct.fields@.len(),
            forall|i: int|
                0 <= i < r@.len() ==> {
                    let n = self.variable_struct.fields@[i].spec_name();
                    &&& (#[trigger] r@[i]).0@ == snake_case(n)
                    &&& crate::output::string_opt(r@[i].1) == field_rename(n, None)
                },
    {
        let fields = &self.variable_struct.fields;
        let mut out: Vec<(String, Option<String>)> = Vec::new();
        let mut i: usize = 0;
        while i < fields.len()
            invariant
                fields == &self.variable_struct.fields,
                i <= fields@.len(),
                out@.len() == i,
                forall|a: int|
                    0 <= a < i ==> {
                        let n = fields@[a].spec_name();
                        &&& (#[trigger] out@[a]).0@ == snake_case(n)
                        &&& crate::output::string_opt(out@[a].1) == field_rename(n, None)
                    },
            decreases fields.len() - i,
        {
            let name = fields[i].name();
            out.push((to_snake_case(name), rename_for_name(name)));
            i = i + 1;
        }
        out
    }
}

} // verus!
