//! The enums and scalars that generated code has to declare.

use vstd::prelude::*;
use crate::document::{Schema, TypeKind};
use crate::inputs::{all_false, ints};
use crate::maps::ScalarTypeMap;
use crate::processing::scalar_is_builtin;
use crate::text::str_chars;

verus! {

/// The positions of the schema types that `names` name, each the first
/// time it is named, in order.
pub open spec fn first_named(schema: Schema, names: Seq<Seq<char>>) -> Seq<int>
    decreases names.len(),
{
    if names.len() == 0 {
        Seq::empty()
    } else {
        let prev = first_named(schema, names.drop_last());
        let n = names.last();
        if schema.has_type(n) && !prev.contains(schema.type_position(n)) {
            prev.push(schema.type_position(n))
        } else {
            prev
        }
    }
}

/// Whether the type at position `p` is a built-in scalar's name.
pub open spec fn builtin_scalar_name(n: Seq<char>) -> bool {
    n == seq!['S', 't', 'r', 'i', 'n', 'g'] || n == seq!['I', 'n', 't'] || n == seq![
        'B',
        'o',
        'o',
        'l',
        'e',
        'a',
        'n',
    ] || n == seq!['I', 'D'] || n == seq!['F', 'l', 'o', 'a', 't']
}

/// The enums among `ps`, in order.
pub open spec fn enums_among(schema: Schema, ps: Seq<int>) -> Seq<int>
    decreases ps.len(),
{
    if ps.len() == 0 {
        Seq::empty()
    } else {
        let prev = enums_among(schema, ps.drop_last());
        let p = ps.last();
        if 0 <= p < schema.types@.len() && schema.types@[p].kind is Enum {
            prev.push(p)
        } else {
            prev
        }
    }
}

/// The scalars among `ps` that generated code declares, in order: not the
/// built-in ones, and not those given a Rust type.
pub open spec fn scalars_among(schema: Schema, scalar_types: Map<Seq<char>, Seq<char>>, ps: Seq<int>) -> Seq<int>
    decreases ps.len(),
{
    if ps.len() == 0 {
        Seq::empty()
    } else {
        let prev = scalars_among(schema, scalar_types, ps.drop_last());
        let p = ps.last();
        if 0 <= p < schema.types@.len() && schema.types@[p].kind is Scalar && !builtin_scalar_name(
            schema.types@[p].name@,
        ) && !scalar_types.contains_key(schema.types@[p].name@) {
            prev.push(p)
        } else {
            prev
        }
    }
}

/// The enums and the scalars to declare for the types named in `names`:
/// each named type once, in the order first named, enums apart from
/// scalars; scalars that are built in or given a Rust type are left out.
pub fn leaf_types(schema: &Schema, names: &Vec<&str>, scalar_types: &ScalarTypeMap) -> (r: (
    Vec<usize>,
    Vec<usize>,
))
    requires
        schema.wf(),
        scalar_types.wf(),
    ensures
        ints(r.0@) == enums_among(*schema, first_named(*schema, names@.map_values(|n: &str| n@))),
        ints(r.1@) == scalars_among(
            *schema,
            scalar_types.view(),
            first_named(*schema, names@.map_values(|n: &str| n@)),
        ),
{
    let ghost nv = names@.map_values(|n: &str| n@);
    let mut seen: Vec<bool> = Vec::new();
    let mut z: usize = 0;
    while z < schema.types.len()
        invariant
            z <= schema.types@.len(),
            seen@ == all_false(z as nat),
        decreases schema.types.len() - z,
    {
        seen.push(false);
        z = z + 1;
        assert(seen@ =~= all_false(z as nat));
    }
    let mut enums: Vec<usize> = Vec::new();
    let mut scalars: Vec<usize> = Vec::new();
    let mut i: usize = 0;
    while i < names.len()
        invariant
            schema.wf(),
            scalar_types.wf(),
            nv == names@.map_values(|n: &str| n@),
            i <= names@.len(),
            seen@.len() == schema.types@.len(),
            forall|p: int|
                0 <= p < schema.types@.len() ==> (seen@[p] <==> first_named(*schema, nv.take(i as int)).contains(p)),
            ints(enums@) == enums_among(*schema, first_named(*schema, nv.take(i as int))),
            ints(scalars@) == scalars_among(*schema, scalar_types.view(), first_named(*schema, nv.take(i as int))),
        decreases names.len() - i,
    {
        let ghost prev = first_named(*schema, nv.take(i as int));
        proof {
            assert(nv.take(i + 1).drop_last() == nv.take(i as int));
            assert(nv.take(i + 1).last() == names@[i as int]@);
        }
        match schema.type_index(names[i]) {
            Some(p) => {
                if !seen[p] {
                    seen.set(p, true);
                    let ghost next = prev.push(p as int);
                    proof {
                        assert(next.drop_last() == prev);
                        assert(forall|q: int| 0 <= q < schema.types@.len() ==> (seen@[q] <==> next.contains(q))) by {
                            assert forall|q: int| 0 <= q < schema.types@.len() implies (seen@[q] <==> next.contains(q)) by {
                                if q == p {
                                    assert(next[next.len() - 1] == q);
                                } else {
                                    if prev.contains(q) {
                                        let j = choose|j: int| 0 <= j < prev.len() && prev[j] == q;
                                        assert(next[j] == q);
                                    }
                                    if next.contains(q) {
                                        let j = choose|j: int| 0 <= j < next.len() && next[j] == q;
                                        assert(j < prev.len());
                                        assert(prev[j] == q);
                                    }
                                }
                            }
                        }
                    }
                    match &schema.types[p].kind {
                        TypeKind::Enum { .. } => {
                            let ghost old_enums = enums@;
                            enums.push(p);
                            assert(ints(enums@) == ints(old_enums).push(p as int));
                        },
                        TypeKind::Scalar => {
                            let name = schema.types[p].name.as_str();
                            if !scalar_is_builtin(name) && scalar_types.get(name).is_none() {
                                let ghost old_scalars = scalars@;
                                scalars.push(p);
                                assert(ints(scalars@) == ints(old_scalars).push(p as int));
                            }
                        },
                        _ => {},
                    }
                }
            },
            None => {},
        }
        i = i + 1;
    }
    assert(nv.take(names@.len() as int) == nv);
    (enums, scalars)
}

/// `a` comes before `b` in the order of their characters' code points,
/// a prefix first.
pub open spec fn text_lt(a: Seq<char>, b: Seq<char>) -> bool
    decreases a.len(),
{
    if b.len() == 0 {
        false
    } else if a.len() == 0 {
        true
    } else if a[0] != b[0] {
        a[0] < b[0]
    } else {
        text_lt(a.drop_first(), b.drop_first())
    }
}

/// Whether `a` comes before `b`, character by character.
pub fn str_lt(a: &str, b: &str) -> (r: bool)
    ensures
        r == text_lt(a@, b@),
{
    let x = str_chars(a);
    let y = str_chars(b);
    let mut i: usize = 0;
    assert(a@.skip(0) == a@ && b@.skip(0) == b@);
    while i < x.len() && i < y.len() && x[i] == y[i]
        invariant
            x@ == a@,
            y@ == b@,
            i <= x@.len(),
            i <= y@.len(),
            text_lt(a@, b@) == text_lt(a@.skip(i as int), b@.skip(i as int)),
        decreases x.len() - i,
    {
        proof {
            assert(a@.skip(i as int).drop_first() == a@.skip(i + 1));
            assert(b@.skip(i as int).drop_first() == b@.skip(i + 1));
            assert(a@.skip(i as int)[0] == x@[i as int]);
            assert(b@.skip(i as int)[0] == y@[i as int]);
        }
        i = i + 1;
    }
    proof {
        if i < x.len() && i < y.len() {
            assert(a@.skip(i as int)[0] == x@[i as int]);
            assert(b@.skip(i as int)[0] == y@[i as int]);
        }
    }
    if i == y.len() {
        false
    } else if i == x.len() {
        true
    } else {
        x[i] < y[i]
    }
}

/// Ordering texts is transitive.
pub proof fn lemma_text_lt_transitive(a: Seq<char>, b: Seq<char>, c: Seq<char>)
    requires
        text_lt(a, b),
        text_lt(b, c),
    ensures
        text_lt(a, c),
    decreases a.len(),
{
    if a.len() > 0 && b.len() > 0 && c.len() > 0 && a[0] == b[0] && b[0] == c[0] {
        lemma_text_lt_transitive(a.drop_first(), b.drop_first(), c.drop_first());
    }
}

/// No text comes before itself.
pub proof fn lemma_text_lt_irreflexive(a: Seq<char>)
    ensures
        !text_lt(a, a),
    decreases a.len(),
{
    if a.len() > 0 {
        lemma_text_lt_irreflexive(a.drop_first());
    }
}

/// The name of the type at position `p`.
pub open spec fn name_at(schema: Schema, p: int) -> Seq<char> {
    schema.types@[p].name@
}

/// The positions are in order of their types' names.
pub open spec fn sorted_by_name(schema: Schema, ps: Seq<int>) -> bool {
    forall|i: int, j: int|
        0 <= i < j < ps.len() ==> !text_lt(name_at(schema, #[trigger] ps[j]), name_at(schema, #[trigger] ps[i]))
}

/// The positions `ps` ordered by their types' names; of two with the same
/// name, the one that comes first stays first.
pub fn sort_by_name(schema: &Schema, ps: &Vec<usize>) -> (r: Vec<usize>)
    requires
        forall|i: int| 0 <= i < ps@.len() ==> (#[trigger] ps@[i]) < schema.types@.len(),
    ensures
        sorted_by_name(*schema, ints(r@)),
        r@.to_multiset() == ps@.to_multiset(),
        forall|i: int| 0 <= i < r@.len() ==> (#[trigger] r@[i]) < schema.types@.len(),
{
    let mut out: Vec<usize> = Vec::new();
    let mut i: usize = 0;
    assert(out@ == ps@.take(0));
    while i < ps.len()
        invariant
            i <= ps@.len(),
            forall|k: int| 0 <= k < ps@.len() ==> (#[trigger] ps@[k]) < schema.types@.len(),
            forall|k: int| 0 <= k < out@.len() ==> (#[trigger] out@[k]) < schema.types@.len(),
            sorted_by_name(*schema, ints(out@)),
            out@.to_multiset() == ps@.take(i as int).to_multiset(),
        decreases ps.len() - i,
    {
        let x = ps[i];
        let name = schema.types[x].name.as_str();
        let mut p: usize = 0;
        while p < out.len() && !str_lt(name, schema.types[out[p]].name.as_str())
            invariant
                p <= out@.len(),
                x < schema.types@.len(),
                name@ == name_at(*schema, x as int),
                forall|k: int| 0 <= k < out@.len() ==> (#[trigger] out@[k]) < schema.types@.len(),
                forall|k: int| 0 <= k < p ==> !text_lt(name_at(*schema, x as int), name_at(*schema, #[trigger] out@[k] as int)),
            decreases out.len() - p,
        {
            p = p + 1;
        }
        let ghost old_out = out@;
        let ghost found_greater = p < out.len();
        proof {
            if p < old_out.len() {
                assert(text_lt(name_at(*schema, x as int), name_at(*schema, old_out[p as int] as int)));
            }
        }
        out.insert(p, x);
        proof {
            assert(out@ == old_out.insert(p as int, x));
            vstd::seq_lib::to_multiset_insert(old_out, p as int, x);
            assert(ps@.take(i + 1) == ps@.take(i as int).push(x));
            vstd::seq_lib::to_multiset_build(ps@.take(i as int), x);
            let o = ints(out@);
            let oo = ints(old_out);
            assert forall|a: int, b: int| 0 <= a < b < o.len() implies !text_lt(
                name_at(*schema, #[trigger] o[b]),
                name_at(*schema, #[trigger] o[a]),
            ) by {
                if b < p {
                    assert(o[a] == oo[a] && o[b] == oo[b]);
                } else if b == p {
                    assert(o[a] == oo[a]);
                    assert(oo[a] == old_out[a] as int);
                    assert(!text_lt(name_at(*schema, x as int), name_at(*schema, old_out[a] as int)));
                    assert(o[b] == x as int);
                } else if a == p {
                    assert(o[a] == x as int);
                    assert(o[b] == oo[b - 1]);
                    assert(text_lt(name_at(*schema, x as int), name_at(*schema, oo[p as int])));
                    if p < b - 1 {
                        assert(!text_lt(name_at(*schema, oo[b - 1]), name_at(*schema, oo[p as int])));
                    }
                    if text_lt(name_at(*schema, oo[b - 1]), name_at(*schema, x as int)) {
                        lemma_text_lt_transitive(
                            name_at(*schema, oo[b - 1]),
                            name_at(*schema, x as int),
                            name_at(*schema, oo[p as int]),
                        );
                        lemma_text_lt_irreflexive(name_at(*schema, oo[p as int]));
                    }
                } else if a < p {
                    assert(o[a] == oo[a] && o[b] == oo[b - 1]);
                } else {
                    assert(o[a] == oo[a - 1] && o[b] == oo[b - 1]);
                }
            }
        }
        i = i + 1;
    }
    assert(ps@.take(ps@.len() as int) == ps@);
    out
}

} // verus!
