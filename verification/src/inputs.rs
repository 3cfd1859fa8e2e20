//! The input objects that the variables of a query reach, and which of
//! them are recursive or borrow.

use vstd::prelude::*;
use crate::document::{InputValueDefinition, Schema, TypeKind};
use crate::executable::OperationDefinition;
use crate::maps::ScalarTypeMap;
use crate::output::{InputObject, InputObjectField};
use crate::casing::pascal_case;
use crate::text::contains_text;
use crate::type_spec::{
    input_base_type, input_type_spec, lemma_input_type_spec_keeps_base, lemma_input_type_spec_keeps_boxed_base, opt_view,
    TypeSpec,
};
use crate::wrappers::WrappingType;

verus! {

/// How many entries of `s` are `false`.
pub open spec fn count_false(s: Seq<bool>) -> nat
    decreases s.len(),
{
    if s.len() == 0 {
        0
    } else {
        count_false(s.drop_last()) + if s.last() {
            0nat
        } else {
            1nat
        }
    }
}

/// Setting an entry that was `false` to `true` leaves one `false` fewer.
pub proof fn lemma_count_false_set(s: Seq<bool>, p: int)
    requires
        0 <= p < s.len(),
        !s[p],
    ensures
        count_false(s.update(p, true)) + 1 == count_false(s),
    decreases s.len(),
{
    let t = s.update(p, true);
    if p == s.len() - 1 {
        assert(t.drop_last() == s.drop_last());
    } else {
        lemma_count_false_set(s.drop_last(), p);
        assert(t.drop_last() == s.drop_last().update(p, true));
    }
}

/// Setting an entry to `true` never adds a `false`.
pub proof fn lemma_count_false_set_any(s: Seq<bool>, p: int)
    requires
        0 <= p < s.len(),
    ensures
        count_false(s.update(p, true)) <= count_false(s),
{
    if !s[p] {
        lemma_count_false_set(s, p);
    } else {
        assert(s.update(p, true) == s);
    }
}

/// Whether the type at position `p` is an input object.
pub open spec fn is_input_object(schema: Schema, p: int) -> bool {
    0 <= p < schema.types@.len() && schema.types@[p].kind is InputObject
}

/// The fields of the input object at position `p`.
pub open spec fn input_fields_of(schema: Schema, p: int) -> Seq<InputValueDefinition> {
    match schema.types@[p].kind {
        TypeKind::InputObject { input_fields, .. } => input_fields@,
        _ => Seq::empty(),
    }
}

/// The positions of the types of `fields` that the schema has, last field first.
pub open spec fn reversed_field_types(schema: Schema, fields: Seq<InputValueDefinition>) -> Seq<int>
    decreases fields.len(),
{
    if fields.len() == 0 {
        Seq::empty()
    } else {
        let f = fields.last();
        (if schema.has_type(f.ty.name@) {
            seq![schema.type_position(f.ty.name@)]
        } else {
            Seq::<int>::empty()
        }) + reversed_field_types(schema, fields.drop_last())
    }
}

/// The input objects that a walk over `stack` returns, in order: it takes
/// the type at the top; an input object not returned before is returned,
/// and its fields' types go onto the stack so that the first field comes
/// off next; any other type is passed over.
pub open spec fn input_object_walk(schema: Schema, stack: Seq<int>, seen: Seq<bool>) -> Seq<int>
    decreases count_false(seen), stack.len(),
{
    if stack.len() == 0 {
        Seq::empty()
    } else {
        let p = stack.last();
        let rest = stack.drop_last();
        if is_input_object(schema, p) && 0 <= p < seen.len() && !seen[p] {
            proof {
                lemma_count_false_set(seen, p);
            }
            seq![p] + input_object_walk(
                schema,
                rest + reversed_field_types(schema, input_fields_of(schema, p)),
                seen.update(p, true),
            )
        } else {
            input_object_walk(schema, rest, seen)
        }
    }
}

/// The positions of the types of the variables of `ops` that the schema
/// has, in order.
pub open spec fn variable_types(schema: Schema, ops: Seq<OperationDefinition>) -> Seq<int>
    decreases ops.len(),
{
    if ops.len() == 0 {
        Seq::empty()
    } else {
        variable_types(schema, ops.drop_last()) + variable_types_of(schema, ops.last().variable_definitions@.map_values(|v: crate::executable::VariableDefinition| v.ty.name@))
    }
}

/// The positions of the types named in `names` that the schema has, in order.
pub open spec fn variable_types_of(schema: Schema, names: Seq<Seq<char>>) -> Seq<int>
    decreases names.len(),
{
    if names.len() == 0 {
        Seq::empty()
    } else {
        variable_types_of(schema, names.drop_last()) + if schema.has_type(names.last()) {
            seq![schema.type_position(names.last())]
        } else {
            Seq::<int>::empty()
        }
    }
}

/// `n` entries, all `false`.
pub open spec fn all_false(n: nat) -> Seq<bool> {
    Seq::new(n, |i: int| false)
}

/// The input objects that the variables of `ops` reach, in the order the
/// walk from the last variable's type back returns them.
pub open spec fn reached_input_objects(schema: Schema, ops: Seq<OperationDefinition>) -> Seq<int> {
    input_object_walk(schema, variable_types(schema, ops), all_false(schema.types@.len()))
}

proof fn lemma_variable_types_of_push(schema: Schema, names: Seq<Seq<char>>, n: Seq<char>)
    ensures
        variable_types_of(schema, names.push(n)) == variable_types_of(schema, names) + if schema.has_type(n) {
            seq![schema.type_position(n)]
        } else {
            Seq::<int>::empty()
        },
{
    assert(names.push(n).drop_last() == names);
}

/// Pushes the positions of the types of the variables of `ops`.
fn push_variable_types(schema: &Schema, ops: &Vec<OperationDefinition>) -> (r: Vec<usize>)
    requires
        schema.wf(),
    ensures
        r@.map_values(|p: usize| p as int) == variable_types(*schema, ops@),
        forall|i: int| 0 <= i < r@.len() ==> (#[trigger] r@[i]) < schema.types@.len(),
{
    let mut r: Vec<usize> = Vec::new();
    let mut i: usize = 0;
    while i < ops.len()
        invariant
            schema.wf(),
            i <= ops@.len(),
            r@.map_values(|p: usize| p as int) == variable_types(*schema, ops@.take(i as int)),
            forall|k: int| 0 <= k < r@.len() ==> (#[trigger] r@[k]) < schema.types@.len(),
        decreases ops.len() - i,
    {
        let vars = &ops[i].variable_definitions;
        let ghost names = vars@.map_values(|v: crate::executable::VariableDefinition| v.ty.name@);
        let ghost before = variable_types(*schema, ops@.take(i as int));
        proof {
            assert(ops@.take(i + 1).drop_last() == ops@.take(i as int));
            assert(ops@.take(i + 1).last() == ops@[i as int]);
        }
        let mut j: usize = 0;
        while j < vars.len()
            invariant
                schema.wf(),
                j <= vars@.len(),
                names == vars@.map_values(|v: crate::executable::VariableDefinition| v.ty.name@),
                r@.map_values(|p: usize| p as int) == before + variable_types_of(*schema, names.take(j as int)),
                forall|k: int| 0 <= k < r@.len() ==> (#[trigger] r@[k]) < schema.types@.len(),
            decreases vars.len() - j,
        {
            proof {
                lemma_variable_types_of_push(*schema, names.take(j as int), names[j as int]);
                assert(names.take(j as int).push(names[j as int]) == names.take(j + 1));
            }
            let ghost old_r = r@;
            match schema.type_index(vars[j].ty.name.as_str()) {
                Some(p) => {
                    r.push(p);
                    assert(r@.map_values(|p: usize| p as int) == old_r.map_values(|p: usize| p as int).push(p as int));
                },
                None => {},
            }
            j = j + 1;
        }
        assert(names.take(vars@.len() as int) == names);
        i = i + 1;
    }
    assert(ops@.take(ops@.len() as int) == ops@);
    r
}

/// Positions as integers.
pub open spec fn ints(s: Seq<usize>) -> Seq<int> {
    s.map_values(|p: usize| p as int)
}

proof fn lemma_reversed_field_types_take(schema: Schema, fields: Seq<InputValueDefinition>, k: int)
    requires
        0 <= k < fields.len(),
    ensures
        reversed_field_types(schema, fields.take(k + 1)) == (if schema.has_type(fields[k].ty.name@) {
            seq![schema.type_position(fields[k].ty.name@)]
        } else {
            Seq::<int>::empty()
        }) + reversed_field_types(schema, fields.take(k)),
{
    assert(fields.take(k + 1).drop_last() == fields.take(k));
    assert(fields.take(k + 1).last() == fields[k]);
}

/// Pushes the positions of the types of `fields` that the schema has, last
/// field first.
fn push_field_types(schema: &Schema, fields: &Vec<InputValueDefinition>, stack: &mut Vec<usize>)
    requires
        schema.wf(),
        forall|i: int| 0 <= i < old(stack)@.len() ==> (#[trigger] old(stack)@[i]) < schema.types@.len(),
    ensures
        ints(final(stack)@) == ints(old(stack)@) + reversed_field_types(*schema, fields@),
        forall|i: int| 0 <= i < final(stack)@.len() ==> (#[trigger] final(stack)@[i]) < schema.types@.len(),
{
    let ghost base = ints(stack@);
    let ghost all = reversed_field_types(*schema, fields@);
    let mut k: usize = fields.len();
    assert(fields@.take(k as int) == fields@);
    assert(ints(stack@) == base + Seq::<int>::empty());
    assert(Seq::<int>::empty() + reversed_field_types(*schema, fields@.take(k as int)) == all);
    while k > 0
        invariant
            schema.wf(),
            k <= fields@.len(),
            all == reversed_field_types(*schema, fields@),
            exists|pre: Seq<int>| ints(stack@) == base + pre && pre + reversed_field_types(*schema, fields@.take(k as int)) == all,
            forall|i: int| 0 <= i < stack@.len() ==> (#[trigger] stack@[i]) < schema.types@.len(),
        decreases k,
    {
        let ghost pre = choose|pre: Seq<int>| ints(stack@) == base + pre && pre + reversed_field_types(*schema, fields@.take(k as int)) == all;
        proof {
            lemma_reversed_field_types_take(*schema, fields@, k - 1);
        }
        let ghost old_stack = stack@;
        match schema.type_index(fields[k - 1].ty.name.as_str()) {
            Some(p) => {
                stack.push(p);
                proof {
                    let e = seq![p as int];
                    assert(ints(stack@) == ints(old_stack).push(p as int));
                    assert(ints(stack@) == base + (pre + e));
                    assert((pre + e) + reversed_field_types(*schema, fields@.take(k - 1)) == all);
                }
            },
            None => {
                proof {
                    assert(ints(stack@) == base + (pre + Seq::<int>::empty()));
                    assert((pre + Seq::<int>::empty()) + reversed_field_types(*schema, fields@.take(k - 1)) == all);
                }
            },
        }
        k = k - 1;
    }
    proof {
        let pre = choose|pre: Seq<int>| ints(stack@) == base + pre && pre + reversed_field_types(*schema, fields@.take(k as int)) == all;
        assert(fields@.take(0) == Seq::<InputValueDefinition>::empty());
        assert(reversed_field_types(*schema, fields@.take(0)) == Seq::<int>::empty());
        assert(pre + Seq::<int>::empty() == pre);
    }
}

/// The positions of the input objects that the variables of `ops` reach,
/// each once, in the order the walk returns them.
pub fn reached_input_object_positions(schema: &Schema, ops: &Vec<OperationDefinition>) -> (r: Vec<usize>)
    requires
        schema.wf(),
    ensures
        ints(r@) == reached_input_objects(*schema, ops@),
{
    let mut stack = push_variable_types(schema, ops);
    let mut seen: Vec<bool> = Vec::new();
    let mut i: usize = 0;
    while i < schema.types.len()
        invariant
            i <= schema.types@.len(),
            seen@ == all_false(i as nat),
        decreases schema.types.len() - i,
    {
        seen.push(false);
        i = i + 1;
        assert(seen@ =~= all_false(i as nat));
    }
    let ghost total = reached_input_objects(*schema, ops@);
    let mut out: Vec<usize> = Vec::new();
    assert(ints(stack@) == variable_types(*schema, ops@));
    while stack.len() > 0
        invariant
            schema.wf(),
            seen@.len() == schema.types@.len(),
            forall|k: int| 0 <= k < stack@.len() ==> (#[trigger] stack@[k]) < schema.types@.len(),
            ints(out@) + input_object_walk(*schema, ints(stack@), seen@) == total,
        decreases count_false(seen@), stack@.len(),
    {
        let ghost old_stack = stack@;
        let ghost old_seen = seen@;
        let p = stack.pop().unwrap();
        proof {
            assert(ints(old_stack).last() == p as int);
            assert(ints(old_stack).drop_last() == ints(stack@));
        }
        if !seen[p] {
            match &schema.types[p].kind {
                TypeKind::InputObject { input_fields, .. } => {
                    seen.set(p, true);
                    let ghost old_out = out@;
                    out.push(p);
                    push_field_types(schema, input_fields, &mut stack);
                    proof {
                        lemma_count_false_set(old_seen, p as int);
                        assert(ints(out@) == ints(old_out).push(p as int));
                        assert(ints(out@) + input_object_walk(*schema, ints(stack@), seen@) == ints(old_out) + (
                        seq![p as int] + input_object_walk(*schema, ints(stack@), seen@)));
                    }
                },
                _ => {},
            }
        }
    }
    proof {
        assert(ints(stack@) =~= Seq::<int>::empty());
        assert(ints(out@) + Seq::<int>::empty() == ints(out@));
    }
    out
}

/// A walk returns each input object once, and only input objects it has
/// not seen before it started.
proof fn lemma_walk_fresh(schema: Schema, stack: Seq<int>, seen: Seq<bool>)
    ensures
        forall|i: int|
            #![trigger input_object_walk(schema, stack, seen)[i]]
            0 <= i < input_object_walk(schema, stack, seen).len() ==> {
                let p = input_object_walk(schema, stack, seen)[i];
                &&& is_input_object(schema, p)
                &&& 0 <= p < seen.len()
                &&& !seen[p]
            },
        forall|i: int, j: int|
            0 <= i < j < input_object_walk(schema, stack, seen).len() ==> input_object_walk(schema, stack, seen)[i]
                != input_object_walk(schema, stack, seen)[j],
    decreases count_false(seen), stack.len(),
{
    if stack.len() > 0 {
        let p = stack.last();
        let rest = stack.drop_last();
        if is_input_object(schema, p) && 0 <= p < seen.len() && !seen[p] {
            lemma_count_false_set(seen, p);
            let next_stack = rest + reversed_field_types(schema, input_fields_of(schema, p));
            let next_seen = seen.update(p, true);
            lemma_walk_fresh(schema, next_stack, next_seen);
            let w = input_object_walk(schema, next_stack, next_seen);
            let all = input_object_walk(schema, stack, seen);
            assert(all == seq![p] + w);
            assert forall|i: int| 0 <= i < all.len() implies {
                let q = #[trigger] all[i];
                &&& is_input_object(schema, q)
                &&& 0 <= q < seen.len()
                &&& !seen[q]
            } by {
                if i > 0 {
                    assert(all[i] == w[i - 1]);
                }
            }
            assert forall|i: int, j: int| 0 <= i < j < all.len() implies all[i] != all[j] by {
                assert(all[j] == w[j - 1]);
                if i > 0 {
                    assert(all[i] == w[i - 1]);
                } else {
                    assert(!next_seen[w[j - 1]]);
                }
            }
        } else {
            lemma_walk_fresh(schema, rest, seen);
            assert(input_object_walk(schema, stack, seen) == input_object_walk(schema, rest, seen));
        }
    } else {
        assert(input_object_walk(schema, stack, seen).len() == 0);
    }
}

/// The input objects the variables reach are input objects, each listed once.
pub proof fn law_reached_input_objects_are_distinct(schema: Schema, ops: Seq<OperationDefinition>)
    ensures
        forall|i: int|
            0 <= i < reached_input_objects(schema, ops).len() ==> is_input_object(
                schema,
                #[trigger] reached_input_objects(schema, ops)[i],
            ),
        forall|i: int, j: int|
            0 <= i < j < reached_input_objects(schema, ops).len() ==> reached_input_objects(schema, ops)[i]
                != reached_input_objects(schema, ops)[j],
{
    lemma_walk_fresh(schema, variable_types(schema, ops), all_false(schema.types@.len()));
}

/// `t` is the position of the type of one of the fields of the input
/// object at `p`.
pub open spec fn field_type_of(schema: Schema, p: int, t: int) -> bool {
    reversed_field_types(schema, input_fields_of(schema, p)).contains(t)
}

/// `path` goes from input object to input object, each the type of a field
/// of the one before.
pub open spec fn is_input_path(schema: Schema, path: Seq<int>) -> bool {
    &&& path.len() > 0
    &&& forall|i: int| 0 <= i < path.len() ==> is_input_object(schema, #[trigger] path[i])
    &&& forall|i: int| 0 <= i < path.len() - 1 ==> field_type_of(schema, #[trigger] path[i], path[i + 1])
}

proof fn lemma_walk_closed(schema: Schema, stack: Seq<int>, seen: Seq<bool>)
    requires
        seen.len() == schema.types@.len(),
    ensures
        forall|x: int|
            #[trigger] stack.contains(x) && is_input_object(schema, x) ==> seen[x] || input_object_walk(
                schema,
                stack,
                seen,
            ).contains(x),
        forall|q: int, t: int|
            #[trigger] input_object_walk(schema, stack, seen).contains(q) && #[trigger] field_type_of(schema, q, t)
                && is_input_object(schema, t) ==> seen[t] || input_object_walk(schema, stack, seen).contains(t),
    decreases count_false(seen), stack.len(),
{
    let all = input_object_walk(schema, stack, seen);
    if stack.len() > 0 {
        let p = stack.last();
        let rest = stack.drop_last();
        if is_input_object(schema, p) && 0 <= p < seen.len() && !seen[p] {
            lemma_count_false_set(seen, p);
            let fts = reversed_field_types(schema, input_fields_of(schema, p));
            let next_stack = rest + fts;
            let next_seen = seen.update(p, true);
            lemma_walk_closed(schema, next_stack, next_seen);
            let w = input_object_walk(schema, next_stack, next_seen);
            assert(all == seq![p] + w);
            assert(all[0] == p);
            assert forall|x: int| #[trigger] stack.contains(x) && is_input_object(schema, x) implies seen[x] || all.contains(x) by {
                if x != p {
                    let i = choose|i: int| 0 <= i < stack.len() && stack[i] == x;
                    assert(i < stack.len() - 1);
                    assert(next_stack[i] == x);
                    assert(next_stack.contains(x));
                    if w.contains(x) {
                        let j = choose|j: int| 0 <= j < w.len() && w[j] == x;
                        assert(all[j + 1] == x);
                    }
                }
            }
            assert forall|q: int, t: int|
                #[trigger] all.contains(q) && #[trigger] field_type_of(schema, q, t) && is_input_object(schema, t) implies seen[t]
                || all.contains(t) by {
                if w.contains(t) {
                    let j = choose|j: int| 0 <= j < w.len() && w[j] == t;
                    assert(all[j + 1] == t);
                }
                if q == p {
                    let k = choose|k: int| 0 <= k < fts.len() && fts[k] == t;
                    assert(next_stack[rest.len() + k] == t);
                    assert(next_stack.contains(t));
                } else {
                    let i = choose|i: int| 0 <= i < all.len() && all[i] == q;
                    assert(i > 0);
                    assert(w[i - 1] == q);
                    assert(w.contains(q));
                }
                if t == p {
                    assert(all.contains(p));
                }
            }
        } else {
            lemma_walk_closed(schema, rest, seen);
            assert(all == input_object_walk(schema, rest, seen));
            assert forall|x: int| #[trigger] stack.contains(x) && is_input_object(schema, x) implies seen[x] || all.contains(x) by {
                if x != p {
                    let i = choose|i: int| 0 <= i < stack.len() && stack[i] == x;
                    assert(rest[i] == x);
                    assert(rest.contains(x));
                }
            }
        }
    }
}

proof fn lemma_walk_paths(schema: Schema, stack: Seq<int>, seen: Seq<bool>)
    ensures
        forall|q: int|
            #[trigger] input_object_walk(schema, stack, seen).contains(q) ==> exists|path: Seq<int>|
                is_input_path(schema, path) && stack.contains(path[0]) && path.last() == q,
    decreases count_false(seen), stack.len(),
{
    let all = input_object_walk(schema, stack, seen);
    if stack.len() > 0 {
        let p = stack.last();
        let rest = stack.drop_last();
        if is_input_object(schema, p) && 0 <= p < seen.len() && !seen[p] {
            lemma_count_false_set(seen, p);
            let fts = reversed_field_types(schema, input_fields_of(schema, p));
            let next_stack = rest + fts;
            let next_seen = seen.update(p, true);
            lemma_walk_paths(schema, next_stack, next_seen);
            let w = input_object_walk(schema, next_stack, next_seen);
            assert(all == seq![p] + w);
            assert forall|q: int| #[trigger] all.contains(q) implies exists|path: Seq<int>|
                is_input_path(schema, path) && stack.contains(path[0]) && path.last() == q by {
                let i = choose|i: int| 0 <= i < all.len() && all[i] == q;
                if i == 0 {
                    let path = seq![p];
                    assert(stack[stack.len() - 1] == p);
                    assert(is_input_path(schema, path));
                    assert(path.last() == q);
                } else {
                    assert(w[i - 1] == q);
                    assert(w.contains(q));
                    let path = choose|path: Seq<int>| is_input_path(schema, path) && next_stack.contains(path[0]) && path.last() == q;
                    let k = choose|k: int| 0 <= k < next_stack.len() && next_stack[k] == path[0];
                    if k < rest.len() {
                        assert(stack[k] == path[0]);
                    } else {
                        assert(fts[k - rest.len()] == path[0]);
                        assert(field_type_of(schema, p, path[0]));
                        let longer = seq![p] + path;
                        assert(longer[0] == p);
                        assert(stack[stack.len() - 1] == p);
                        assert forall|j: int| 0 <= j < longer.len() implies is_input_object(schema, #[trigger] longer[j]) by {
                            if j > 0 {
                                assert(longer[j] == path[j - 1]);
                            }
                        }
                        assert forall|j: int| 0 <= j < longer.len() - 1 implies field_type_of(schema, #[trigger] longer[j], longer[j + 1]) by {
                            if j > 0 {
                                assert(longer[j] == path[j - 1] && longer[j + 1] == path[j]);
                            } else {
                                assert(longer[1] == path[0]);
                            }
                        }
                        assert(is_input_path(schema, longer));
                        assert(longer.last() == q);
                    }
                }
            }
        } else {
            lemma_walk_paths(schema, rest, seen);
            assert(all == input_object_walk(schema, rest, seen));
            assert forall|q: int| #[trigger] all.contains(q) implies exists|path: Seq<int>|
                is_input_path(schema, path) && stack.contains(path[0]) && path.last() == q by {
                let path = choose|path: Seq<int>| is_input_path(schema, path) && rest.contains(path[0]) && path.last() == q;
                let k = choose|k: int| 0 <= k < rest.len() && rest[k] == path[0];
                assert(stack[k] == path[0]);
            }
        }
    }
}

/// The input objects the variables of `ops` reach are exactly those at the
/// end of a path of input objects, each the type of a field of the one
/// before, that starts at the type of a variable.
pub proof fn law_reached_input_objects_are_the_reachable_ones(schema: Schema, ops: Seq<OperationDefinition>)
    ensures
        forall|q: int|
            #[trigger] reached_input_objects(schema, ops).contains(q) <==> exists|path: Seq<int>|
                is_input_path(schema, path) && variable_types(schema, ops).contains(path[0]) && path.last() == q,
{
    let roots = variable_types(schema, ops);
    let seen = all_false(schema.types@.len());
    let all = reached_input_objects(schema, ops);
    lemma_walk_closed(schema, roots, seen);
    lemma_walk_paths(schema, roots, seen);
    assert forall|q: int| (exists|path: Seq<int>|
        is_input_path(schema, path) && roots.contains(path[0]) && path.last() == q) implies #[trigger] all.contains(q) by {
        let path = choose|path: Seq<int>| is_input_path(schema, path) && roots.contains(path[0]) && path.last() == q;
        assert(is_input_object(schema, path[0]));
        assert(!seen[path[0]]);
        assert(all.contains(path[0]));
        lemma_path_in_closed(schema, all, seen, path, path.len() - 1);
    }
}

proof fn lemma_path_in_closed(schema: Schema, all: Seq<int>, seen: Seq<bool>, path: Seq<int>, i: int)
    requires
        is_input_path(schema, path),
        0 <= i < path.len(),
        all.contains(path[0]),
        forall|t: int| 0 <= t < seen.len() ==> !#[trigger] seen[t],
        seen.len() == schema.types@.len(),
        forall|q: int, t: int|
            #[trigger] all.contains(q) && #[trigger] field_type_of(schema, q, t) && is_input_object(schema, t) ==> seen[t]
                || all.contains(t),
    ensures
        all.contains(path[i]),
    decreases i,
{
    if i > 0 {
        lemma_path_in_closed(schema, all, seen, path, i - 1);
        assert(field_type_of(schema, path[i - 1], path[i]));
        assert(is_input_object(schema, path[i]));
        assert(!seen[path[i]]);
    }
}

/// Every field of every input object of the schema has a type the schema has.
pub open spec fn input_fields_resolve(schema: Schema) -> bool {
    forall|p: int, k: int|
        #![trigger input_fields_of(schema, p)[k]]
        is_input_object(schema, p) && 0 <= k < input_fields_of(schema, p).len() ==> schema.has_type(
            input_fields_of(schema, p)[k].ty.name@,
        )
}

/// The position of the type of the field `f`.
pub open spec fn field_type_position(schema: Schema, f: InputValueDefinition) -> int {
    schema.type_position(f.ty.name@)
}

/// The stack entries for the fields of an input object: each field's type,
/// with the ancestors `anc`, in field order.
pub open spec fn field_entries(schema: Schema, fields: Seq<InputValueDefinition>, anc: Seq<int>) -> Seq<(int, Seq<int>)> {
    Seq::new(fields.len(), |k: int| (field_type_position(schema, fields[k]), anc))
}

/// The input objects marked recursive after a walk over `stack`, whose
/// entries are a type and the input objects on the path to it: the entry
/// at the top is taken; an input object on its own path is marked; one
/// not seen before has its fields' types pushed, with itself added to the
/// path; any other type is passed over.
pub open spec fn recursion_walk(schema: Schema, stack: Seq<(int, Seq<int>)>, seen: Seq<bool>, rec: Seq<bool>) -> Seq<bool>
    decreases count_false(seen), stack.len(),
{
    if stack.len() == 0 {
        rec
    } else {
        let (p, anc) = stack.last();
        let rest = stack.drop_last();
        if !is_input_object(schema, p) || !(0 <= p < seen.len()) || !(p < rec.len()) {
            recursion_walk(schema, rest, seen, rec)
        } else {
            let rec2 = if anc.contains(p) {
                rec.update(p, true)
            } else {
                rec
            };
            if seen[p] {
                recursion_walk(schema, rest, seen, rec2)
            } else {
                proof {
                    lemma_count_false_set(seen, p);
                }
                recursion_walk(
                    schema,
                    rest + field_entries(schema, input_fields_of(schema, p), anc.push(p)),
                    seen.update(p, true),
                    rec2,
                )
            }
        }
    }
}

/// The recursive input objects after walking from each of `vars` in turn,
/// each walk starting afresh.
pub open spec fn recursion_over(schema: Schema, vars: Seq<int>, rec: Seq<bool>) -> Seq<bool>
    decreases vars.len(),
{
    if vars.len() == 0 {
        rec
    } else {
        recursion_walk(
            schema,
            seq![(vars.last(), Seq::<int>::empty())],
            all_false(schema.types@.len()),
            recursion_over(schema, vars.drop_last(), rec),
        )
    }
}

/// The input objects that are found on their own path in a walk from some
/// variable of `ops`.
pub open spec fn recursive_input_objects(schema: Schema, ops: Seq<OperationDefinition>) -> Seq<bool> {
    recursion_over(schema, variable_types(schema, ops), all_false(schema.types@.len()))
}

/// Whether a vector of positions holds `p`.
fn contains_position(v: &Vec<usize>, p: usize) -> (r: bool)
    ensures
        r == ints(v@).contains(p as int),
{
    let mut i: usize = 0;
    while i < v.len()
        invariant
            i <= v@.len(),
            forall|j: int| 0 <= j < i ==> (#[trigger] v@[j]) != p,
        decreases v.len() - i,
    {
        if v[i] == p {
            assert(ints(v@)[i as int] == p as int);
            return true;
        }
        i = i + 1;
    }
    proof {
        if ints(v@).contains(p as int) {
            let j = choose|j: int| 0 <= j < ints(v@).len() && ints(v@)[j] == p as int;
            assert(v@[j] == p);
        }
    }
    false
}

/// A copy of a vector of positions.
fn copy_positions(v: &Vec<usize>) -> (r: Vec<usize>)
    ensures
        r@ == v@,
{
    let mut r: Vec<usize> = Vec::new();
    let mut i: usize = 0;
    while i < v.len()
        invariant
            i <= v@.len(),
            r@ == v@.take(i as int),
        decreases v.len() - i,
    {
        r.push(v[i]);
        i = i + 1;
        assert(v@.take(i as int) == v@.take(i - 1).push(v@[i - 1]));
    }
    assert(v@.take(v@.len() as int) == v@);
    r
}

/// The view of a stack of entries.
pub open spec fn entries_view(s: Seq<(usize, Vec<usize>)>) -> Seq<(int, Seq<int>)> {
    s.map_values(|e: (usize, Vec<usize>)| (e.0 as int, ints(e.1@)))
}

/// `n` falses.
fn falses(n: usize) -> (r: Vec<bool>)
    ensures
        r@ == all_false(n as nat),
{
    let mut r: Vec<bool> = Vec::new();
    let mut i: usize = 0;
    while i < n
        invariant
            i <= n,
            r@ == all_false(i as nat),
        decreases n - i,
    {
        r.push(false);
        i = i + 1;
        assert(r@ =~= all_false(i as nat));
    }
    r
}

/// Walks from the variable type at position `start`, marking recursive
/// input objects in `rec`.
fn recursion_walk_from(schema: &Schema, start: usize, rec: &mut Vec<bool>)
    requires
        schema.wf(),
        input_fields_resolve(*schema),
        start < schema.types@.len(),
        old(rec)@.len() == schema.types@.len(),
    ensures
        final(rec)@.len() == old(rec)@.len(),
        final(rec)@ == recursion_walk(
            *schema,
            seq![(start as int, Seq::<int>::empty())],
            all_false(schema.types@.len()),
            old(rec)@,
        ),
{
    let mut stack: Vec<(usize, Vec<usize>)> = Vec::new();
    stack.push((start, Vec::new()));
    let mut seen = falses(schema.types.len());
    let ghost total = recursion_walk(
        *schema,
        seq![(start as int, Seq::<int>::empty())],
        all_false(schema.types@.len()),
        old(rec)@,
    );
    proof {
        assert(ints(stack@[0].1@) =~= Seq::<int>::empty());
        assert(entries_view(stack@) =~= seq![(start as int, Seq::<int>::empty())]);
    }
    while stack.len() > 0
        invariant
            schema.wf(),
            input_fields_resolve(*schema),
            seen@.len() == schema.types@.len(),
            rec@.len() == schema.types@.len(),
            recursion_walk(*schema, entries_view(stack@), seen@, rec@) == total,
        decreases count_false(seen@), stack@.len(),
    {
        let ghost old_stack = stack@;
        let ghost old_seen = seen@;
        let ghost old_rec = rec@;
        let (p, ancestors) = stack.pop().unwrap();
        proof {
            assert(entries_view(old_stack).last() == (p as int, ints(ancestors@)));
            assert(entries_view(old_stack).drop_last() == entries_view(stack@));
        }
        if p < schema.types.len() {
            match &schema.types[p].kind {
                TypeKind::InputObject { input_fields, .. } => {
                    if contains_position(&ancestors, p) {
                        rec.set(p, true);
                    }
                    if !seen[p] {
                        seen.set(p, true);
                        let mut anc = copy_positions(&ancestors);
                        anc.push(p);
                        assert(ints(anc@) == ints(ancestors@).push(p as int));
                        let ghost base = entries_view(stack@);
                        let mut k: usize = 0;
                        while k < input_fields.len()
                            invariant
                                schema.wf(),
                                input_fields_resolve(*schema),
                                is_input_object(*schema, p as int),
                                input_fields@ == input_fields_of(*schema, p as int),
                                k <= input_fields@.len(),
                                entries_view(stack@) == base + field_entries(
                                    *schema,
                                    input_fields@.take(k as int),
                                    ints(anc@),
                                ),
                            decreases input_fields.len() - k,
                        {
                            let ghost before = stack@;
                            let q = match schema.type_index(input_fields[k].ty.name.as_str()) {
                                Some(q) => q,
                                None => {
                                    proof {
                                        assert(schema.has_type(input_fields_of(*schema, p as int)[k as int].ty.name@));
                                    }
                                    0
                                },
                            };
                            stack.push((q, copy_positions(&anc)));
                            proof {
                                assert(entries_view(stack@) == entries_view(before).push((q as int, ints(anc@))));
                                assert(field_entries(*schema, input_fields@.take(k + 1), ints(anc@)) =~= field_entries(
                                    *schema,
                                    input_fields@.take(k as int),
                                    ints(anc@),
                                ).push((q as int, ints(anc@))));
                            }
                            k = k + 1;
                        }
                        proof {
                            assert(input_fields@.take(input_fields@.len() as int) == input_fields@);
                            lemma_count_false_set(old_seen, p as int);
                        }
                    }
                },
                _ => {},
            }
        }
    }
}

/// For each type of the schema, by position, whether it is an input
/// object found on its own path in a walk from a variable of `ops`.
pub fn recursive_objects(schema: &Schema, ops: &Vec<OperationDefinition>) -> (r: Vec<bool>)
    requires
        schema.wf(),
        input_fields_resolve(*schema),
    ensures
        r@ == recursive_input_objects(*schema, ops@),
        r@.len() == schema.types@.len(),
{
    let vars = push_variable_types(schema, ops);
    let mut rec = falses(schema.types.len());
    let mut i: usize = 0;
    while i < vars.len()
        invariant
            schema.wf(),
            input_fields_resolve(*schema),
            i <= vars@.len(),
            forall|k: int| 0 <= k < vars@.len() ==> (#[trigger] vars@[k]) < schema.types@.len(),
            ints(vars@) == variable_types(*schema, ops@),
            rec@.len() == schema.types@.len(),
            rec@ == recursion_over(*schema, ints(vars@).take(i as int), all_false(schema.types@.len())),
        decreases vars.len() - i,
    {
        proof {
            let t = ints(vars@).take(i + 1);
            assert(t.drop_last() == ints(vars@).take(i as int));
            assert(t.last() == vars@[i as int] as int);
        }
        recursion_walk_from(schema, vars[i], &mut rec);
        i = i + 1;
    }
    assert(ints(vars@).take(vars@.len() as int) == ints(vars@));
    rec
}

/// Whether a type name is one of the scalars whose Rust type borrows.
pub open spec fn borrowing_scalar(name: Seq<char>) -> bool {
    name == seq!['S', 't', 'r', 'i', 'n', 'g'] || name == seq!['I', 'D']
}

/// Whether the type of the `k`-th field is not visited yet.
pub open spec fn unvisited_at(schema: Schema, fields: Seq<InputValueDefinition>, visited: Seq<bool>, k: int) -> bool {
    !visited[field_type_position(schema, fields[k])]
}

/// The first field of `fields` whose type is not yet visited.
pub open spec fn first_unvisited(schema: Schema, fields: Seq<InputValueDefinition>, visited: Seq<bool>) -> Option<int> {
    if exists|k: int| 0 <= k < fields.len() && #[trigger] unvisited_at(schema, fields, visited, k) {
        Some(
            choose|k: int|
                0 <= k < fields.len() && #[trigger] unvisited_at(schema, fields, visited, k) && forall|j: int|
                    0 <= j < k ==> !#[trigger] unvisited_at(schema, fields, visited, j),
        )
    } else {
        None
    }
}

/// Whether some field of `fields` has a borrowing type: a borrowing
/// scalar, or an input object already marked in `lt`.
pub open spec fn some_field_borrows(schema: Schema, fields: Seq<InputValueDefinition>, lt: Seq<bool>) -> bool {
    exists|k: int|
        0 <= k < fields.len() && (lt[field_type_position(schema, #[trigger] fields[k])] || borrowing_scalar(
            fields[k].ty.name@,
        ))
}

/// The input objects marked as borrowing after a depth-first walk over
/// `stack`: the type at the top, if an input object, first descends into
/// its first field whose type is not visited yet; once all are visited,
/// it is marked when a field's type borrows; then it is taken off and
/// counted as visited.
#[verifier::opaque]
pub open spec fn lifetime_walk(schema: Schema, stack: Seq<int>, visited: Seq<bool>, lt: Seq<bool>) -> Seq<bool>
    decreases count_false(visited), stack.len(),
{
    if stack.len() == 0 {
        lt
    } else {
        let top = stack.last();
        if !(0 <= top < visited.len()) || !(top < lt.len()) {
            lifetime_walk(schema, stack.drop_last(), visited, lt)
        } else if is_input_object(schema, top) {
            let fields = input_fields_of(schema, top);
            match first_unvisited(schema, fields, visited) {
                Some(k) => {
                    let q = field_type_position(schema, fields[k]);
                    if 0 <= q < visited.len() && !visited[q] {
                        proof {
                            lemma_count_false_set(visited, q);
                        }
                        lifetime_walk(schema, stack.push(q), visited.update(q, true), lt)
                    } else {
                        lt
                    }
                },
                None => {
                    let lt2 = if some_field_borrows(schema, fields, lt) {
                        lt.update(top, true)
                    } else {
                        lt
                    };
                    proof {
                        lemma_count_false_set_any(visited, top);
                    }
                    lifetime_walk(schema, stack.drop_last(), visited.update(top, true), lt2)
                },
            }
        } else {
            proof {
                lemma_count_false_set_any(visited, top);
            }
            lifetime_walk(schema, stack.drop_last(), visited.update(top, true), lt)
        }
    }
}

/// The borrowing input objects after walking from each of `vars` in turn,
/// each walk starting afresh.
pub open spec fn lifetime_over(schema: Schema, vars: Seq<int>, lt: Seq<bool>) -> Seq<bool>
    decreases vars.len(),
{
    if vars.len() == 0 {
        lt
    } else {
        lifetime_walk(
            schema,
            seq![vars.last()],
            all_false(schema.types@.len()),
            lifetime_over(schema, vars.drop_last(), lt),
        )
    }
}

/// The input objects that walks from the variables of `ops` mark as
/// borrowing.
pub open spec fn lifetimed_input_objects(schema: Schema, ops: Seq<OperationDefinition>) -> Seq<bool> {
    lifetime_over(schema, variable_types(schema, ops), all_false(schema.types@.len()))
}

proof fn lemma_lifetime_descend(schema: Schema, stack: Seq<int>, visited: Seq<bool>, lt: Seq<bool>, k: int, q: int)
    requires
        stack.len() > 0,
        0 <= stack.last() < visited.len(),
        stack.last() < lt.len(),
        is_input_object(schema, stack.last()),
        first_unvisited(schema, input_fields_of(schema, stack.last()), visited) == Some(k),
        unvisited_at(schema, input_fields_of(schema, stack.last()), visited, k),
        q == field_type_position(schema, input_fields_of(schema, stack.last())[k]),
        0 <= q < visited.len(),
    ensures
        lifetime_walk(schema, stack, visited, lt) == lifetime_walk(schema, stack.push(q), visited.update(q, true), lt),
{
    reveal(lifetime_walk);
}

proof fn lemma_lifetime_finish(schema: Schema, stack: Seq<int>, visited: Seq<bool>, lt: Seq<bool>)
    requires
        stack.len() > 0,
        0 <= stack.last() < visited.len(),
        stack.last() < lt.len(),
        is_input_object(schema, stack.last()),
        first_unvisited(schema, input_fields_of(schema, stack.last()), visited) is None,
    ensures
        lifetime_walk(schema, stack, visited, lt) == lifetime_walk(
            schema,
            stack.drop_last(),
            visited.update(stack.last(), true),
            if some_field_borrows(schema, input_fields_of(schema, stack.last()), lt) {
                lt.update(stack.last(), true)
            } else {
                lt
            },
        ),
{
    reveal(lifetime_walk);
}

proof fn lemma_lifetime_other(schema: Schema, stack: Seq<int>, visited: Seq<bool>, lt: Seq<bool>)
    requires
        stack.len() > 0,
        0 <= stack.last() < visited.len(),
        stack.last() < lt.len(),
        !is_input_object(schema, stack.last()),
    ensures
        lifetime_walk(schema, stack, visited, lt) == lifetime_walk(
            schema,
            stack.drop_last(),
            visited.update(stack.last(), true),
            lt,
        ),
{
    reveal(lifetime_walk);
}

proof fn lemma_lifetime_empty(schema: Schema, stack: Seq<int>, visited: Seq<bool>, lt: Seq<bool>)
    requires
        stack.len() == 0,
    ensures
        lifetime_walk(schema, stack, visited, lt) == lt,
{
    reveal(lifetime_walk);
}

fn first_unvisited_imp(schema: &Schema, p: usize, fields: &Vec<InputValueDefinition>, visited: &Vec<bool>) -> (r: Option<(usize, usize)>)
    requires
        schema.wf(),
        input_fields_resolve(*schema),
        is_input_object(*schema, p as int),
        fields@ == input_fields_of(*schema, p as int),
        visited@.len() == schema.types@.len(),
    ensures
        match first_unvisited(*schema, fields@, visited@) {
            Some(k) => r matches Some((i, q)) && i == k && q == field_type_position(*schema, fields@[k]) && q
                < schema.types@.len() && unvisited_at(*schema, fields@, visited@, k),
            None => r is None,
        },
{
    let mut i: usize = 0;
    while i < fields.len()
        invariant
            schema.wf(),
            input_fields_resolve(*schema),
            is_input_object(*schema, p as int),
            fields@ == input_fields_of(*schema, p as int),
            visited@.len() == schema.types@.len(),
            i <= fields@.len(),
            forall|j: int| 0 <= j < i ==> !#[trigger] unvisited_at(*schema, fields@, visited@, j),
        decreases fields.len() - i,
    {
        let q = match schema.type_index(fields[i].ty.name.as_str()) {
            Some(q) => q,
            None => {
                proof {
                    assert(schema.has_type(input_fields_of(*schema, p as int)[i as int].ty.name@));
                }
                return None;
            },
        };
        if !visited[q] {
            proof {
                assert(unvisited_at(*schema, fields@, visited@, i as int));
                let k = first_unvisited(*schema, fields@, visited@)->0;
                assert(first_unvisited(*schema, fields@, visited@) is Some);
                if k < i {
                    assert(!unvisited_at(*schema, fields@, visited@, k));
                } else if k > i {
                    assert(!unvisited_at(*schema, fields@, visited@, i as int));
                }
            }
            return Some((i, q));
        }
        i = i + 1;
    }
    None
}

fn some_field_borrows_imp(schema: &Schema, p: usize, fields: &Vec<InputValueDefinition>, lt: &Vec<bool>) -> (r: bool)
    requires
        schema.wf(),
        input_fields_resolve(*schema),
        is_input_object(*schema, p as int),
        fields@ == input_fields_of(*schema, p as int),
        lt@.len() == schema.types@.len(),
    ensures
        r == some_field_borrows(*schema, fields@, lt@),
{
    let mut i: usize = 0;
    while i < fields.len()
        invariant
            schema.wf(),
            input_fields_resolve(*schema),
            is_input_object(*schema, p as int),
            fields@ == input_fields_of(*schema, p as int),
            lt@.len() == schema.types@.len(),
            i <= fields@.len(),
            forall|j: int|
                0 <= j < i ==> !(lt@[field_type_position(*schema, #[trigger] fields@[j])] || borrowing_scalar(
                    fields@[j].ty.name@,
                )),
        decreases fields.len() - i,
    {
        let q = match schema.type_index(fields[i].ty.name.as_str()) {
            Some(q) => q,
            None => {
                proof {
                    assert(schema.has_type(input_fields_of(*schema, p as int)[i as int].ty.name@));
                }
                return false;
            },
        };
        if lt[q] || crate::processing::type_requires_lifetime(fields[i].ty.name.as_str()) {
            assert(lt@[field_type_position(*schema, fields@[i as int])] || borrowing_scalar(fields@[i as int].ty.name@));
            return true;
        }
        i = i + 1;
    }
    false
}

/// One step of the walk: descend into the first field type not visited
/// yet, or finish the type at the top.
fn lifetime_step(schema: &Schema, stack: &mut Vec<usize>, visited: &mut Vec<bool>, lt: &mut Vec<bool>)
    requires
        schema.wf(),
        input_fields_resolve(*schema),
        old(stack)@.len() > 0,
        old(visited)@.len() == schema.types@.len(),
        old(lt)@.len() == schema.types@.len(),
        forall|k: int| 0 <= k < old(stack)@.len() ==> (#[trigger] old(stack)@[k]) < schema.types@.len(),
    ensures
        final(visited)@.len() == schema.types@.len(),
        final(lt)@.len() == schema.types@.len(),
        forall|k: int| 0 <= k < final(stack)@.len() ==> (#[trigger] final(stack)@[k]) < schema.types@.len(),
        lifetime_walk(*schema, ints(final(stack)@), final(visited)@, final(lt)@) == lifetime_walk(
            *schema,
            ints(old(stack)@),
            old(visited)@,
            old(lt)@,
        ),
        count_false(final(visited)@) < count_false(old(visited)@) || (count_false(final(visited)@)
            == count_false(old(visited)@) && final(stack)@.len() < old(stack)@.len()),
{
    let ghost old_stack = stack@;
    let ghost old_visited = visited@;
    let top = stack[stack.len() - 1];
    proof {
        assert(ints(old_stack).last() == top as int);
        assert(ints(old_stack).len() == old_stack.len());
    }
    match &schema.types[top].kind {
        TypeKind::InputObject { input_fields, .. } => {
            match first_unvisited_imp(schema, top, input_fields, visited) {
                Some((k, q)) => {
                    proof {
                        lemma_lifetime_descend(*schema, ints(old_stack), old_visited, lt@, k as int, q as int);
                        lemma_count_false_set(old_visited, q as int);
                    }
                    visited.set(q, true);
                    stack.push(q);
                    proof {
                        assert(ints(stack@) == ints(old_stack).push(q as int));
                    }
                    return;
                },
                None => {
                    proof {
                        lemma_lifetime_finish(*schema, ints(old_stack), old_visited, lt@);
                    }
                    if some_field_borrows_imp(schema, top, input_fields, lt) {
                        lt.set(top, true);
                    }
                },
            }
        },
        _ => {
            proof {
                lemma_lifetime_other(*schema, ints(old_stack), old_visited, lt@);
            }
        },
    }
    stack.pop();
    visited.set(top, true);
    proof {
        lemma_count_false_set_any(old_visited, top as int);
        assert(ints(stack@) == ints(old_stack).drop_last());
    }
}

/// Walks from the variable type at position `start`, marking borrowing
/// input objects in `lt`.
fn lifetime_walk_from(schema: &Schema, start: usize, lt: &mut Vec<bool>)
    requires
        schema.wf(),
        input_fields_resolve(*schema),
        start < schema.types@.len(),
        old(lt)@.len() == schema.types@.len(),
    ensures
        final(lt)@.len() == old(lt)@.len(),
        final(lt)@ == lifetime_walk(*schema, seq![start as int], all_false(schema.types@.len()), old(lt)@),
{
    let mut stack: Vec<usize> = Vec::new();
    stack.push(start);
    let mut visited = falses(schema.types.len());
    let ghost total = lifetime_walk(*schema, seq![start as int], all_false(schema.types@.len()), old(lt)@);
    proof {
        assert(ints(stack@) =~= seq![start as int]);
    }
    while stack.len() > 0
        invariant
            schema.wf(),
            input_fields_resolve(*schema),
            visited@.len() == schema.types@.len(),
            lt@.len() == schema.types@.len(),
            forall|k: int| 0 <= k < stack@.len() ==> (#[trigger] stack@[k]) < schema.types@.len(),
            lifetime_walk(*schema, ints(stack@), visited@, lt@) == total,
        decreases count_false(visited@), stack@.len(),
    {
        lifetime_step(schema, &mut stack, &mut visited, lt);
    }
    proof {
        assert(ints(stack@) =~= Seq::<int>::empty());
        lemma_lifetime_empty(*schema, ints(stack@), visited@, lt@);
    }
}

/// For each type of the schema, by position, whether it is an input
/// object that a walk from a variable of `ops` marks as borrowing.
pub fn lifetimed_objects(schema: &Schema, ops: &Vec<OperationDefinition>) -> (r: Vec<bool>)
    requires
        schema.wf(),
        input_fields_resolve(*schema),
    ensures
        r@ == lifetimed_input_objects(*schema, ops@),
        r@.len() == schema.types@.len(),
{
    let vars = push_variable_types(schema, ops);
    let mut lt = falses(schema.types.len());
    let mut i: usize = 0;
    while i < vars.len()
        invariant
            schema.wf(),
            input_fields_resolve(*schema),
            i <= vars@.len(),
            forall|k: int| 0 <= k < vars@.len() ==> (#[trigger] vars@[k]) < schema.types@.len(),
            ints(vars@) == variable_types(*schema, ops@),
            lt@.len() == schema.types@.len(),
            lt@ == lifetime_over(*schema, ints(vars@).take(i as int), all_false(schema.types@.len())),
        decreases vars.len() - i,
    {
        proof {
            let t = ints(vars@).take(i + 1);
            assert(t.drop_last() == ints(vars@).take(i as int));
            assert(t.last() == vars@[i as int] as int);
        }
        lifetime_walk_from(schema, vars[i], &mut lt);
        i = i + 1;
    }
    assert(ints(vars@).take(vars@.len() as int) == ints(vars@));
    lt
}

/// The input objects that a query's variables need, and which of the
/// schema's types are recursive or borrowing input objects.
pub struct InputObjects<'a> {
    pub schema: &'a Schema,
    pub objects: Vec<usize>,
    pub recursive_objects: Vec<bool>,
    pub objects_with_lifetime: Vec<bool>,
}

/// The names of the types of the fields of the input objects `objects`,
/// object by object, field by field.
pub open spec fn field_type_names(schema: Schema, objects: Seq<int>) -> Seq<Seq<char>>
    decreases objects.len(),
{
    if objects.len() == 0 {
        Seq::empty()
    } else {
        field_type_names(schema, objects.drop_last()) + input_fields_of(schema, objects.last()).map_values(
            |f: InputValueDefinition| f.ty.name@,
        )
    }
}

/// The Rust type of the field `f` of an input object: nullable unless the
/// schema marks it `!`, and never nullable in a `@oneOf` input object;
/// boxed when its type is a recursive input object; with `<'a>` when its
/// type is a borrowing input object; with the scalar type set for it.
pub open spec fn input_field_type(
    schema: Schema,
    one_of: bool,
    rec: Seq<bool>,
    lt: Seq<bool>,
    scalar_types: Map<Seq<char>, Seq<char>>,
    f: InputValueDefinition,
) -> (Seq<char>, bool) {
    let p = field_type_position(schema, f);
    input_type_spec(
        f.ty.name@,
        f.ty.wrappers@,
        !one_of,
        rec[p],
        lt[p],
        if scalar_types.contains_key(f.ty.name@) {
            Some(scalar_types[f.ty.name@])
        } else {
            None
        },
    )
}

/// GraphQL's built-in scalars: `Int`, `Float`, `Boolean`, `ID`, `String`.
pub open spec fn builtin_scalar(n: Seq<char>) -> bool {
    ||| n == seq!['I', 'n', 't']
    ||| n == seq!['F', 'l', 'o', 'a', 't']
    ||| n == seq!['B', 'o', 'o', 'l', 'e', 'a', 'n']
    ||| n == seq!['I', 'D']
    ||| n == seq!['S', 't', 'r', 'i', 'n', 'g']
}

/// The Rust type of a field of an input object borrows for `'a` exactly
/// when no scalar type is set for the field's type and that type is
/// `String`, `ID` or an input object that borrows (`lt`); a field of a
/// borrowing input object type names it with `<'a>`.
pub proof fn law_input_fields_borrow_as_their_types_do(
    schema: Schema,
    one_of: bool,
    rec: Seq<bool>,
    lt: Seq<bool>,
    scalar_types: Map<Seq<char>, Seq<char>>,
    f: InputValueDefinition,
)
    ensures
        ({
            let n = f.ty.name@;
            let q = field_type_position(schema, f);
            let t = input_field_type(schema, one_of, rec, lt, scalar_types, f);
            &&& t.1 == (!scalar_types.contains_key(n) && (n == seq!['S', 't', 'r', 'i', 'n', 'g'] || n == seq!['I', 'D']
                || (!builtin_scalar(n) && lt[q])))
            &&& (!scalar_types.contains_key(n) && !builtin_scalar(n) && lt[q]) ==> contains_text(
                t.0,
                pascal_case(n) + seq!['<', '\'', 'a', '>'],
            )
        }),
{
    let n = f.ty.name@;
    let q = field_type_position(schema, f);
    let ov = if scalar_types.contains_key(n) {
        Some(scalar_types[n])
    } else {
        None
    };
    lemma_input_type_spec_keeps_base(n, f.ty.wrappers@, !one_of, rec[q], lt[q], ov);
}

/// A field whose type has a scalar type set is typed by that scalar type
/// and borrows nothing; a field of a recursive input object type, outside
/// any list, holds that type boxed (`Box<..>`).
pub proof fn law_input_fields_use_scalar_types_and_box_recursion(
    schema: Schema,
    one_of: bool,
    rec: Seq<bool>,
    lt: Seq<bool>,
    scalar_types: Map<Seq<char>, Seq<char>>,
    f: InputValueDefinition,
)
    ensures
        ({
            let n = f.ty.name@;
            let q = field_type_position(schema, f);
            let t = input_field_type(schema, one_of, rec, lt, scalar_types, f);
            &&& scalar_types.contains_key(n) ==> !t.1 && contains_text(t.0, scalar_types[n])
            &&& (rec[q] && forall|i: int| 0 <= i < f.ty.wrappers@.len() ==> #[trigger] f.ty.wrappers@[i] != WrappingType::List)
                ==> contains_text(
                t.0,
                seq!['B', 'o', 'x', '<'] + input_base_type(
                    n,
                    false,
                    lt[q],
                    if scalar_types.contains_key(n) {
                        Some(scalar_types[n])
                    } else {
                        None
                    },
                ).0 + seq!['>'],
            )
        }),
{
    let n = f.ty.name@;
    let q = field_type_position(schema, f);
    let ov = if scalar_types.contains_key(n) {
        Some(scalar_types[n])
    } else {
        None
    };
    lemma_input_type_spec_keeps_base(n, f.ty.wrappers@, !one_of, rec[q], lt[q], ov);
    if rec[q] && forall|i: int| 0 <= i < f.ty.wrappers@.len() ==> #[trigger] f.ty.wrappers@[i] != WrappingType::List {
        lemma_input_type_spec_keeps_boxed_base(n, f.ty.wrappers@, !one_of, rec[q], lt[q], ov);
    }
}

/// A `@oneOf` input object's fields are never optional: where the schema
/// leaves a field nullable, a plain object's field is an `Option` of exactly
/// the Rust type the `@oneOf` object's field has; a field of a named type
/// with no wrappers is that type's own Rust type, and a list field is a
/// `Vec`.
pub proof fn law_one_of_fields_are_never_optional(
    schema: Schema,
    rec: Seq<bool>,
    lt: Seq<bool>,
    scalar_types: Map<Seq<char>, Seq<char>>,
    f: InputValueDefinition,
)
    ensures
        ({
            let w = f.ty.wrappers@;
            let n = f.ty.name@;
            let q = field_type_position(schema, f);
            let one = input_field_type(schema, true, rec, lt, scalar_types, f);
            let plain = input_field_type(schema, false, rec, lt, scalar_types, f);
            let ov = if scalar_types.contains_key(n) {
                Some(scalar_types[n])
            } else {
                None
            };
            &&& (w.len() == 0 || w[0] != WrappingType::NonNull) ==> plain.0 == seq!['O', 'p', 't', 'i', 'o', 'n', '<']
                + one.0 + seq!['>'] && plain.1 == one.1
            &&& (w.len() > 0 && w[0] == WrappingType::NonNull) ==> plain == one
            &&& w.len() == 0 ==> one == input_base_type(n, rec[q], lt[q], ov)
            &&& (w.len() > 0 && w[0] == WrappingType::List) ==> one.0.subrange(0, 4) == seq!['V', 'e', 'c', '<']
        }),
{
    let w = f.ty.wrappers@;
    if w.len() > 0 && w[0] == WrappingType::List {
        let n = f.ty.name@;
        let q = field_type_position(schema, f);
        let ov = if scalar_types.contains_key(n) {
            Some(scalar_types[n])
        } else {
            None
        };
        let inner = input_type_spec(n, w.drop_first(), true, false, lt[q], ov).0;
        assert((seq!['V', 'e', 'c', '<'] + inner + seq!['>']).subrange(0, 4) =~= seq!['V', 'e', 'c', '<']);
    }
}

/// What the fields of a processed input object `obj`, made for the input
/// object at `p` of `io`'s schema, are: its fields in order, each typed by
/// `input_field_type`.
pub open spec fn processed_from(io: InputObjects, scalar_types: Map<Seq<char>, Seq<char>>, p: int, obj: InputObject) -> bool {
    let fields = input_fields_of(*io.schema, p);
    &&& obj.is_oneof == is_one_of(*io.schema, p)
    &&& obj.fields@.len() == fields.len()
    &&& forall|k: int|
        #![trigger obj.fields@[k]]
        0 <= k < fields.len() ==> {
            &&& *obj.fields@[k].schema_field == fields[k]
            &&& (obj.fields@[k].type_spec.name@, obj.fields@[k].type_spec.contains_lifetime_a) == input_field_type(
                *io.schema,
                is_one_of(*io.schema, p),
                io.recursive_objects@,
                io.objects_with_lifetime@,
                scalar_types,
                fields[k],
            )
        }
}

/// In a processed input object, a field borrows for `'a` exactly when no
/// scalar type is set for its type and that type is `String`, `ID` or an
/// input object that borrows; a field whose type is a borrowing input
/// object names that type with `<'a>`, so the generated struct declares
/// the lifetime the field's type needs.
pub proof fn law_processed_fields_keep_the_lifetime(
    io: InputObjects,
    scalar_types: Map<Seq<char>, Seq<char>>,
    p: int,
    obj: InputObject,
)
    requires
        processed_from(io, scalar_types, p, obj),
    ensures
        forall|k: int|
            #![trigger obj.fields@[k]]
            0 <= k < obj.fields@.len() ==> {
                let f = *obj.fields@[k].schema_field;
                let n = f.ty.name@;
                let q = field_type_position(*io.schema, f);
                &&& obj.fields@[k].type_spec.contains_lifetime_a == (!scalar_types.contains_key(n) && (n == seq![
                    'S',
                    't',
                    'r',
                    'i',
                    'n',
                    'g',
                ] || n == seq!['I', 'D'] || (!builtin_scalar(n) && io.objects_with_lifetime@[q])))
                &&& (!scalar_types.contains_key(n) && !builtin_scalar(n) && io.objects_with_lifetime@[q]) ==> contains_text(
                    obj.fields@[k].type_spec.name@,
                    pascal_case(n) + seq!['<', '\'', 'a', '>'],
                )
            },
{
    assert forall|k: int| 0 <= k < obj.fields@.len() implies {
        let f = *obj.fields@[k].schema_field;
        let n = f.ty.name@;
        let q = field_type_position(*io.schema, f);
        &&& (#[trigger] obj.fields@[k]).type_spec.contains_lifetime_a == (!scalar_types.contains_key(n) && (n == seq![
            'S',
            't',
            'r',
            'i',
            'n',
            'g',
        ] || n == seq!['I', 'D'] || (!builtin_scalar(n) && io.objects_with_lifetime@[q])))
        &&& (!scalar_types.contains_key(n) && !builtin_scalar(n) && io.objects_with_lifetime@[q]) ==> contains_text(
            obj.fields@[k].type_spec.name@,
            pascal_case(n) + seq!['<', '\'', 'a', '>'],
        )
    } by {
        let f = *obj.fields@[k].schema_field;
        law_input_fields_borrow_as_their_types_do(
            *io.schema,
            is_one_of(*io.schema, p),
            io.recursive_objects@,
            io.objects_with_lifetime@,
            scalar_types,
            f,
        );
    }
}

/// In a processed `@oneOf` input object no field is optional at the top:
/// a field of a named type with no wrappers has that type's own Rust type,
/// a list field is a `Vec`, and where the schema leaves a field nullable,
/// the same field of a plain input object would be an `Option` of exactly
/// this type.
pub proof fn law_processed_one_of_fields_are_never_optional(
    io: InputObjects,
    scalar_types: Map<Seq<char>, Seq<char>>,
    p: int,
    obj: InputObject,
)
    requires
        processed_from(io, scalar_types, p, obj),
        obj.is_oneof,
    ensures
        forall|k: int|
            #![trigger obj.fields@[k]]
            0 <= k < obj.fields@.len() ==> {
                let f = *obj.fields@[k].schema_field;
                let w = f.ty.wrappers@;
                let n = f.ty.name@;
                let q = field_type_position(*io.schema, f);
                let spec = obj.fields@[k].type_spec;
                &&& w.len() == 0 ==> (spec.name@, spec.contains_lifetime_a) == input_base_type(
                    n,
                    io.recursive_objects@[q],
                    io.objects_with_lifetime@[q],
                    if scalar_types.contains_key(n) {
                        Some(scalar_types[n])
                    } else {
                        None
                    },
                )
                &&& (w.len() > 0 && w[0] == WrappingType::List) ==> spec.name@.subrange(0, 4) == seq!['V', 'e', 'c', '<']
                &&& (w.len() == 0 || w[0] != WrappingType::NonNull) ==> input_field_type(
                    *io.schema,
                    false,
                    io.recursive_objects@,
                    io.objects_with_lifetime@,
                    scalar_types,
                    f,
                ).0 == seq!['O', 'p', 't', 'i', 'o', 'n', '<'] + spec.name@ + seq!['>']
            },
{
    assert forall|k: int| 0 <= k < obj.fields@.len() implies {
        let f = *obj.fields@[k].schema_field;
        let w = f.ty.wrappers@;
        let n = f.ty.name@;
        let q = field_type_position(*io.schema, f);
        let spec = (#[trigger] obj.fields@[k]).type_spec;
        &&& w.len() == 0 ==> (spec.name@, spec.contains_lifetime_a) == input_base_type(
            n,
            io.recursive_objects@[q],
            io.objects_with_lifetime@[q],
            if scalar_types.contains_key(n) {
                Some(scalar_types[n])
            } else {
                None
            },
        )
        &&& (w.len() > 0 && w[0] == WrappingType::List) ==> spec.name@.subrange(0, 4) == seq!['V', 'e', 'c', '<']
        &&& (w.len() == 0 || w[0] != WrappingType::NonNull) ==> input_field_type(
            *io.schema,
            false,
            io.recursive_objects@,
            io.objects_with_lifetime@,
            scalar_types,
            f,
        ).0 == seq!['O', 'p', 't', 'i', 'o', 'n', '<'] + spec.name@ + seq!['>']
    } by {
        let f = *obj.fields@[k].schema_field;
        law_one_of_fields_are_never_optional(*io.schema, io.recursive_objects@, io.objects_with_lifetime@, scalar_types, f);
    }
}

/// Whether the input object at position `p` is `@oneOf`.
pub open spec fn is_one_of(schema: Schema, p: int) -> bool {
    match schema.types@[p].kind {
        TypeKind::InputObject { one_of, .. } => one_of,
        _ => false,
    }
}

impl<'a> InputObjects<'a> {
    /// Everything the input objects sit on is consistent.
    pub open spec fn wf(&self) -> bool {
        &&& self.schema.wf()
        &&& input_fields_resolve(*self.schema)
        &&& self.recursive_objects@.len() == self.schema.types@.len()
        &&& self.objects_with_lifetime@.len() == self.schema.types@.len()
        &&& forall|i: int| 0 <= i < self.objects@.len() ==> is_input_object(*self.schema, #[trigger] self.objects@[i] as int)
    }

    /// The input objects the variables of `ops` reach, with which types are
    /// recursive or borrowing input objects.
    pub fn new(schema: &'a Schema, ops: &Vec<OperationDefinition>) -> (r: InputObjects<'a>)
        requires
            schema.wf(),
            input_fields_resolve(*schema),
        ensures
            r.wf(),
            r.schema == schema,
            ints(r.objects@) == reached_input_objects(*schema, ops@),
            r.recursive_objects@ == recursive_input_objects(*schema, ops@),
            r.objects_with_lifetime@ == lifetimed_input_objects(*schema, ops@),
    {
        let objects = reached_input_object_positions(schema, ops);
        let recursive_objects = recursive_objects(schema, ops);
        let objects_with_lifetime = lifetimed_objects(schema, ops);
        proof {
            law_reached_input_objects_are_distinct(*schema, ops@);
            assert forall|i: int| 0 <= i < objects@.len() implies is_input_object(*schema, #[trigger] objects@[i] as int) by {
                assert(ints(objects@)[i] == objects@[i] as int);
            }
        }
        InputObjects { schema, objects, recursive_objects, objects_with_lifetime }
    }

    /// The names of the types of the fields of the input objects, object by
    /// object, field by field.
    pub fn required_input_types(&self) -> (r: Vec<&'a str>)
        requires
            self.wf(),
        ensures
            r@.map_values(|n: &str| n@) == field_type_names(*self.schema, ints(self.objects@)),
    {
        let mut r: Vec<&'a str> = Vec::new();
        let mut i: usize = 0;
        while i < self.objects.len()
            invariant
                self.wf(),
                i <= self.objects@.len(),
                r@.map_values(|n: &str| n@) == field_type_names(*self.schema, ints(self.objects@).take(i as int)),
            decreases self.objects.len() - i,
        {
            let p = self.objects[i];
            proof {
                assert(is_input_object(*self.schema, self.objects@[i as int] as int));
                let t = ints(self.objects@).take(i + 1);
                assert(t.drop_last() == ints(self.objects@).take(i as int));
                assert(t.last() == p as int);
            }
            let fields = match &self.schema.types[p].kind {
                TypeKind::InputObject { input_fields, .. } => input_fields,
                _ => {
                    proof {
                        assert(false);
                    }
                    return r;
                },
            };
            let ghost before = r@.map_values(|n: &str| n@);
            let ghost names = fields@.map_values(|f: InputValueDefinition| f.ty.name@);
            let mut k: usize = 0;
            while k < fields.len()
                invariant
                    k <= fields@.len(),
                    names == fields@.map_values(|f: InputValueDefinition| f.ty.name@),
                    r@.map_values(|n: &str| n@) == before + names.take(k as int),
                decreases fields.len() - k,
            {
                let ghost old_r = r@;
                r.push(fields[k].ty.name.as_str());
                proof {
                    assert(r@.map_values(|n: &str| n@) == old_r.map_values(|n: &str| n@).push(names[k as int]));
                    assert(names.take(k + 1) == names.take(k as int).push(names[k as int]));
                }
                k = k + 1;
            }
            assert(names.take(fields@.len() as int) == names);
            i = i + 1;
        }
        assert(ints(self.objects@).take(self.objects@.len() as int) == ints(self.objects@));
        r
    }

    /// The input objects to generate, in order, each with the Rust types of
    /// its fields.
    pub fn processed_objects(&self, scalar_types: &ScalarTypeMap) -> (r: Vec<InputObject<'a>>)
        requires
            self.wf(),
            scalar_types.wf(),
        ensures
            r@.len() == self.objects@.len(),
            forall|i: int|
                #![trigger r@[i]]
                0 <= i < r@.len() ==> {
                    let p = self.objects@[i] as int;
                    let fields = input_fields_of(*self.schema, p);
                    &&& r@[i].name@ == self.schema.types@[p].name@
                    &&& r@[i].schema_name is None
                    &&& r@[i].is_oneof == is_one_of(*self.schema, p)
                    &&& r@[i].fields@.len() == fields.len()
                    &&& forall|k: int|
                        #![trigger r@[i].fields@[k]]
                        0 <= k < fields.len() ==> {
                            &&& *r@[i].fields@[k].schema_field == fields[k]
                            &&& (r@[i].fields@[k].type_spec.name@, r@[i].fields@[k].type_spec.contains_lifetime_a)
                                == input_field_type(
                                *self.schema,
                                is_one_of(*self.schema, p),
                                self.recursive_objects@,
                                self.objects_with_lifetime@,
                                scalar_types.view(),
                                fields[k],
                            )
                        }
                },
    {
        let mut r: Vec<InputObject<'a>> = Vec::new();
        let mut i: usize = 0;
        while i < self.objects.len()
            invariant
                self.wf(),
                scalar_types.wf(),
                i <= self.objects@.len(),
                r@.len() == i,
                forall|j: int|
                    #![trigger r@[j]]
                    0 <= j < i ==> {
                        let p = self.objects@[j] as int;
                        let fields = input_fields_of(*self.schema, p);
                        &&& r@[j].name@ == self.schema.types@[p].name@
                        &&& r@[j].schema_name is None
                        &&& r@[j].is_oneof == is_one_of(*self.schema, p)
                        &&& r@[j].fields@.len() == fields.len()
                        &&& forall|k: int|
                            #![trigger r@[j].fields@[k]]
                            0 <= k < fields.len() ==> {
                                &&& *r@[j].fields@[k].schema_field == fields[k]
                                &&& (r@[j].fields@[k].type_spec.name@, r@[j].fields@[k].type_spec.contains_lifetime_a)
                                    == input_field_type(
                                    *self.schema,
                                    is_one_of(*self.schema, p),
                                    self.recursive_objects@,
                                    self.objects_with_lifetime@,
                                    scalar_types.view(),
                                    fields[k],
                                )
                            }
                    },
            decreases self.objects.len() - i,
        {
            let p = self.objects[i];
            assert(is_input_object(*self.schema, self.objects@[i as int] as int));
            let object = self.process_object(p, scalar_types);
            r.push(object);
            i = i + 1;
        }
        r
    }

    fn process_object(&self, p: usize, scalar_types: &ScalarTypeMap) -> (r: InputObject<'a>)
        requires
            self.wf(),
            scalar_types.wf(),
            is_input_object(*self.schema, p as int),
        ensures
            ({
                let fields = input_fields_of(*self.schema, p as int);
                &&& r.name@ == self.schema.types@[p as int].name@
                &&& r.schema_name is None
                &&& r.is_oneof == is_one_of(*self.schema, p as int)
                &&& r.fields@.len() == fields.len()
                &&& forall|k: int|
                    #![trigger r.fields@[k]]
                    0 <= k < fields.len() ==> {
                        &&& *r.fields@[k].schema_field == fields[k]
                        &&& (r.fields@[k].type_spec.name@, r.fields@[k].type_spec.contains_lifetime_a)
                            == input_field_type(
                            *self.schema,
                            is_one_of(*self.schema, p as int),
                            self.recursive_objects@,
                            self.objects_with_lifetime@,
                            scalar_types.view(),
                            fields[k],
                        )
                    }
            }),
    {
        let schema: &'a Schema = self.schema;
        let (fields, one_of) = match &schema.types[p].kind {
            TypeKind::InputObject { input_fields, one_of } => (input_fields, *one_of),
            _ => {
                proof {
                    assert(false);
                }
                return InputObject { name: String::new(), fields: Vec::new(), schema_name: None, is_oneof: false };
            },
        };
        let mut out: Vec<InputObjectField<'a>> = Vec::new();
        let mut k: usize = 0;
        while k < fields.len()
            invariant
                self.wf(),
                scalar_types.wf(),
                schema == self.schema,
                is_input_object(*schema, p as int),
                fields@ == input_fields_of(*schema, p as int),
                one_of == is_one_of(*schema, p as int),
                k <= fields@.len(),
                out@.len() == k,
                forall|j: int|
                    #![trigger out@[j]]
                    0 <= j < k ==> {
                        &&& *out@[j].schema_field == fields@[j]
                        &&& (out@[j].type_spec.name@, out@[j].type_spec.contains_lifetime_a) == input_field_type(
                            *schema,
                            one_of,
                            self.recursive_objects@,
                            self.objects_with_lifetime@,
                            scalar_types.view(),
                            fields@[j],
                        )
                    },
            decreases fields.len() - k,
        {
            let field: &'a InputValueDefinition = &fields[k];
            let inner = field.ty.name.as_str();
            let q = match schema.type_index(inner) {
                Some(q) => q,
                None => {
                    proof {
                        assert(schema.has_type(input_fields_of(*schema, p as int)[k as int].ty.name@));
                    }
                    0
                },
            };
            let needs_boxed = self.recursive_objects[q];
            let requires_lifetime = self.objects_with_lifetime[q];
            let scalar_override = scalar_types.get(inner);
            let force_nullable = if one_of {
                Some(false)
            } else {
                None
            };
            let type_spec = TypeSpec::for_input_field(field, force_nullable, needs_boxed, requires_lifetime, scalar_override);
            proof {
                assert(opt_view(scalar_override) == if scalar_types.view().contains_key(field.ty.name@) {
                    Some(scalar_types.view()[field.ty.name@])
                } else {
                    None
                });
            }
            out.push(InputObjectField { schema_field: field, type_spec });
            k = k + 1;
        }
        InputObject { name: schema.types[p].name.clone(), fields: out, schema_name: None, is_oneof: one_of }
    }
}

} // verus!
