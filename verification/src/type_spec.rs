//! The Rust types that generated input objects and variable structs use.

use vstd::prelude::*;
use crate::casing::{pascal_case, to_pascal_case};
use crate::document::{InputValueDefinition, TypeRef};
use crate::output::optional;
use crate::text::{contains_text, lemma_contains_text_wrapped, str_eq, string_push};
use crate::wrappers::WrappingType;

verus! {

/// A Rust type for an input value, and whether it mentions the lifetime `'a`.
pub struct TypeSpec {
    pub name: String,
    pub contains_lifetime_a: bool,
}

/// The Rust type, and whether it borrows for `'a`, that an input of the
/// named type `name` has when no wrapper is left: a scalar type given for
/// it, else a Rust type for a built-in scalar (`String` and `ID` borrow),
/// else the pascal-cased name (with `<'a>` for an input object that
/// borrows); boxed when asked.
pub open spec fn input_base_type(
    name: Seq<char>,
    needs_boxed: bool,
    is_subobject_with_lifetime: bool,
    scalar_override: Option<Seq<char>>,
) -> (Seq<char>, bool) {
    let (t, l) = match scalar_override {
        Some(o) => (o, false),
        None => if name == seq!['I', 'n', 't'] {
            (seq!['i', '3', '2'], false)
        } else if name == seq!['F', 'l', 'o', 'a', 't'] {
            (seq!['f', '6', '4'], false)
        } else if name == seq!['B', 'o', 'o', 'l', 'e', 'a', 'n'] {
            (seq!['b', 'o', 'o', 'l'], false)
        } else if name == seq!['I', 'D'] {
            (seq!['&', '\'', 'a', ' ', 'c', 'y', 'n', 'i', 'c', ':', ':', 'I', 'd'], true)
        } else if name == seq!['S', 't', 'r', 'i', 'n', 'g'] {
            (seq!['&', '\'', 'a', ' ', 's', 't', 'r'], true)
        } else if is_subobject_with_lifetime {
            (pascal_case(name) + seq!['<', '\'', 'a', '>'], true)
        } else {
            (pascal_case(name), false)
        },
    };
    if needs_boxed {
        (seq!['B', 'o', 'x', '<'] + t + seq!['>'], l)
    } else {
        (t, l)
    }
}

/// The Rust type, and whether it borrows for `'a`, of an input of the named
/// type `name` under the wrappers `w` (outermost first), where `nullable`
/// says whether no `!` stands right outside `w`: a nullable layer is an
/// `Option`, a list a `Vec` (whose items are never boxed).
pub open spec fn input_type_spec(
    name: Seq<char>,
    w: Seq<WrappingType>,
    nullable: bool,
    needs_boxed: bool,
    is_subobject_with_lifetime: bool,
    scalar_override: Option<Seq<char>>,
) -> (Seq<char>, bool)
    decreases w.len(), if nullable {
        1nat
    } else {
        0nat
    },
{
    if w.len() > 0 && w[0] == WrappingType::NonNull {
        input_type_spec(name, w.drop_first(), false, needs_boxed, is_subobject_with_lifetime, scalar_override)
    } else if nullable {
        let (t, l) = input_type_spec(name, w, false, needs_boxed, is_subobject_with_lifetime, scalar_override);
        (optional(true, t), l)
    } else if w.len() > 0 {
        let (t, l) = input_type_spec(name, w.drop_first(), true, false, is_subobject_with_lifetime, scalar_override);
        (seq!['V', 'e', 'c', '<'] + t + seq!['>'], l)
    } else {
        input_base_type(name, needs_boxed, is_subobject_with_lifetime, scalar_override)
    }
}

/// However it is wrapped, an input's Rust type borrows exactly when the
/// Rust type for its named type does, and holds that type's text.
pub proof fn lemma_input_type_spec_keeps_base(
    name: Seq<char>,
    w: Seq<WrappingType>,
    nullable: bool,
    needs_boxed: bool,
    is_subobject_with_lifetime: bool,
    scalar_override: Option<Seq<char>>,
)
    ensures
        input_type_spec(name, w, nullable, needs_boxed, is_subobject_with_lifetime, scalar_override).1
            == input_base_type(name, false, is_subobject_with_lifetime, scalar_override).1,
        contains_text(
            input_type_spec(name, w, nullable, needs_boxed, is_subobject_with_lifetime, scalar_override).0,
            input_base_type(name, false, is_subobject_with_lifetime, scalar_override).0,
        ),
    decreases w.len(), if nullable {
        1nat
    } else {
        0nat
    },
{
    let base = input_base_type(name, false, is_subobject_with_lifetime, scalar_override).0;
    if w.len() > 0 && w[0] == WrappingType::NonNull {
        lemma_input_type_spec_keeps_base(name, w.drop_first(), false, needs_boxed, is_subobject_with_lifetime, scalar_override);
    } else if nullable {
        lemma_input_type_spec_keeps_base(name, w, false, needs_boxed, is_subobject_with_lifetime, scalar_override);
        let inner = input_type_spec(name, w, false, needs_boxed, is_subobject_with_lifetime, scalar_override).0;
        lemma_contains_text_wrapped(seq!['O', 'p', 't', 'i', 'o', 'n', '<'], inner, seq!['>'], base);
    } else if w.len() > 0 {
        lemma_input_type_spec_keeps_base(name, w.drop_first(), true, false, is_subobject_with_lifetime, scalar_override);
        let inner = input_type_spec(name, w.drop_first(), true, false, is_subobject_with_lifetime, scalar_override).0;
        lemma_contains_text_wrapped(seq!['V', 'e', 'c', '<'], inner, seq!['>'], base);
    } else {
        crate::text::lemma_contains_text_within(Seq::<char>::empty(), base, Seq::<char>::empty());
        assert(Seq::<char>::empty() + base + Seq::<char>::empty() =~= base);
        assert(contains_text(base, base));
        if needs_boxed {
            lemma_contains_text_wrapped(seq!['B', 'o', 'x', '<'], base, seq!['>'], base);
        }
    }
}

/// Without a list among the wrappers, an input's Rust type holds the Rust
/// type of its named type boxed as asked.
pub proof fn lemma_input_type_spec_keeps_boxed_base(
    name: Seq<char>,
    w: Seq<WrappingType>,
    nullable: bool,
    needs_boxed: bool,
    is_subobject_with_lifetime: bool,
    scalar_override: Option<Seq<char>>,
)
    requires
        forall|i: int| 0 <= i < w.len() ==> #[trigger] w[i] != WrappingType::List,
    ensures
        contains_text(
            input_type_spec(name, w, nullable, needs_boxed, is_subobject_with_lifetime, scalar_override).0,
            input_base_type(name, needs_boxed, is_subobject_with_lifetime, scalar_override).0,
        ),
    decreases w.len(), if nullable {
        1nat
    } else {
        0nat
    },
{
    let base = input_base_type(name, needs_boxed, is_subobject_with_lifetime, scalar_override).0;
    if w.len() > 0 && w[0] == WrappingType::NonNull {
        assert forall|i: int| 0 <= i < w.drop_first().len() implies #[trigger] w.drop_first()[i] != WrappingType::List by {
            assert(w.drop_first()[i] == w[i + 1]);
        }
        lemma_input_type_spec_keeps_boxed_base(name, w.drop_first(), false, needs_boxed, is_subobject_with_lifetime, scalar_override);
    } else if nullable {
        lemma_input_type_spec_keeps_boxed_base(name, w, false, needs_boxed, is_subobject_with_lifetime, scalar_override);
        let inner = input_type_spec(name, w, false, needs_boxed, is_subobject_with_lifetime, scalar_override).0;
        lemma_contains_text_wrapped(seq!['O', 'p', 't', 'i', 'o', 'n', '<'], inner, seq!['>'], base);
    } else if w.len() > 0 {
        assert(w[0] != WrappingType::List);
        assert(w[0] == WrappingType::NonNull || w[0] == WrappingType::List);
    } else {
        crate::text::lemma_contains_text_within(Seq::<char>::empty(), base, Seq::<char>::empty());
        assert(Seq::<char>::empty() + base + Seq::<char>::empty() =~= base);
    }
}

/// The view of an optional string.
pub open spec fn opt_view(o: Option<&str>) -> Option<Seq<char>> {
    match o {
        Some(s) => Some(s@),
        None => None,
    }
}

fn input_base_type_imp(
    name: &str,
    needs_boxed: bool,
    is_subobject_with_lifetime: bool,
    scalar_override: Option<&str>,
) -> (r: TypeSpec)
    ensures
        (r.name@, r.contains_lifetime_a) == input_base_type(
            name@,
            needs_boxed,
            is_subobject_with_lifetime,
            opt_view(scalar_override),
        ),
{
    proof {
        reveal_strlit("Int");
        reveal_strlit("Float");
        reveal_strlit("Boolean");
        reveal_strlit("ID");
        reveal_strlit("String");
        reveal_strlit("i32");
        reveal_strlit("f64");
        reveal_strlit("bool");
        reveal_strlit("&'a cynic::Id");
        reveal_strlit("&'a str");
        reveal_strlit("<'a>");
        reveal_strlit("Box<");
        assert("Int"@ =~= seq!['I', 'n', 't']);
        assert("Float"@ =~= seq!['F', 'l', 'o', 'a', 't']);
        assert("Boolean"@ =~= seq!['B', 'o', 'o', 'l', 'e', 'a', 'n']);
        assert("ID"@ =~= seq!['I', 'D']);
        assert("String"@ =~= seq!['S', 't', 'r', 'i', 'n', 'g']);
        assert("i32"@ =~= seq!['i', '3', '2']);
        assert("f64"@ =~= seq!['f', '6', '4']);
        assert("bool"@ =~= seq!['b', 'o', 'o', 'l']);
        assert("&'a cynic::Id"@ =~= seq!['&', '\'', 'a', ' ', 'c', 'y', 'n', 'i', 'c', ':', ':', 'I', 'd']);
        assert("&'a str"@ =~= seq!['&', '\'', 'a', ' ', 's', 't', 'r']);
        assert("<'a>"@ =~= seq!['<', '\'', 'a', '>']);
        assert("Box<"@ =~= seq!['B', 'o', 'x', '<']);
    }
    let mut t = String::new();
    let mut lifetime = false;
    match scalar_override {
        Some(o) => {
            t.append(o);
        },
        None => {
            if str_eq(name, "Int") {
                t.append("i32");
            } else if str_eq(name, "Float") {
                t.append("f64");
            } else if str_eq(name, "Boolean") {
                t.append("bool");
            } else if str_eq(name, "ID") {
                lifetime = true;
                t.append("&'a cynic::Id");
            } else if str_eq(name, "String") {
                lifetime = true;
                t.append("&'a str");
            } else {
                t = to_pascal_case(name);
                if is_subobject_with_lifetime {
                    t.append("<'a>");
                    lifetime = true;
                }
            }
        },
    }
    if needs_boxed {
        let mut b = String::new();
        b.append("Box<");
        b.append(t.as_str());
        string_push(&mut b, '>');
        t = b;
    }
    TypeSpec { name: t, contains_lifetime_a: lifetime }
}

/// The Rust type of an input of the named type `name` under the wrappers
/// `wrappers[start..]` (outermost first).
fn input_type_spec_imp(
    name: &str,
    wrappers: &Vec<WrappingType>,
    start: usize,
    nullable: bool,
    needs_boxed: bool,
    is_subobject_with_lifetime: bool,
    scalar_override: Option<&str>,
) -> (r: TypeSpec)
    requires
        start <= wrappers@.len(),
    ensures
        (r.name@, r.contains_lifetime_a) == input_type_spec(
            name@,
            wrappers@.skip(start as int),
            nullable,
            needs_boxed,
            is_subobject_with_lifetime,
            opt_view(scalar_override),
        ),
    decreases wrappers@.len() - start, if nullable {
        1nat
    } else {
        0nat
    },
{
    proof {
        reveal_strlit("Option<");
        reveal_strlit("Vec<");
        assert("Option<"@ =~= seq!['O', 'p', 't', 'i', 'o', 'n', '<']);
        assert("Vec<"@ =~= seq!['V', 'e', 'c', '<']);
    }
    let ghost w = wrappers@.skip(start as int);
    if start < wrappers.len() {
        assert(w[0] == wrappers@[start as int]);
        assert(w.drop_first() == wrappers@.skip(start + 1));
    }
    if start < wrappers.len() && wrappers[start] == WrappingType::NonNull {
        return input_type_spec_imp(
            name,
            wrappers,
            start + 1,
            false,
            needs_boxed,
            is_subobject_with_lifetime,
            scalar_override,
        );
    }
    if nullable {
        let inner = input_type_spec_imp(
            name,
            wrappers,
            start,
            false,
            needs_boxed,
            is_subobject_with_lifetime,
            scalar_override,
        );
        let mut t = String::new();
        t.append("Option<");
        t.append(inner.name.as_str());
        string_push(&mut t, '>');
        return TypeSpec { name: t, contains_lifetime_a: inner.contains_lifetime_a };
    }
    if start < wrappers.len() {
        let inner = input_type_spec_imp(
            name,
            wrappers,
            start + 1,
            true,
            false,
            is_subobject_with_lifetime,
            scalar_override,
        );
        let mut t = String::new();
        t.append("Vec<");
        t.append(inner.name.as_str());
        string_push(&mut t, '>');
        return TypeSpec { name: t, contains_lifetime_a: inner.contains_lifetime_a };
    }
    input_base_type_imp(name, needs_boxed, is_subobject_with_lifetime, scalar_override)
}

impl TypeSpec {
    /// The Rust type of a field of an input object: nullable unless the
    /// schema marks it `!` or `force_nullable` is `Some(false)`, boxed when
    /// the input object is recursive, with `<'a>` when the field's input
    /// object type borrows, and the given scalar type in place of a scalar.
    pub fn for_input_field(
        field: &InputValueDefinition,
        force_nullable: Option<bool>,
        needs_boxed: bool,
        is_subobject_with_lifetime: bool,
        scalar_override: Option<&str>,
    ) -> (r: TypeSpec)
        ensures
            (r.name@, r.contains_lifetime_a) == input_type_spec(
                field.ty.name@,
                field.ty.wrappers@,
                match force_nullable {
                    Some(b) => b,
                    None => true,
                },
                needs_boxed,
                is_subobject_with_lifetime,
                opt_view(scalar_override),
            ),
    {
        let wrappers = field.ty.wrappers.iter();
        let nullable = match force_nullable {
            Some(b) => b,
            None => true,
        };
        assert(wrappers@.skip(0) == wrappers@);
        input_type_spec_imp(
            field.ty.name.as_str(),
            &wrappers,
            0,
            nullable,
            needs_boxed,
            is_subobject_with_lifetime,
            scalar_override,
        )
    }

    /// The Rust type of a variable of the type `ty`: nullable unless marked
    /// `!`, never boxed.
    pub fn for_executable_type(
        ty: &TypeRef,
        is_subobject_with_lifetime: bool,
        scalar_override: Option<&str>,
    ) -> (r: TypeSpec)
        ensures
            (r.name@, r.contains_lifetime_a) == input_type_spec(
                ty.name@,
                ty.wrappers@,
                true,
                false,
                is_subobject_with_lifetime,
                opt_view(scalar_override),
            ),
    {
        let wrappers = ty.wrappers.iter();
        assert(wrappers@.skip(0) == wrappers@);
        input_type_spec_imp(
            ty.name.as_str(),
            &wrappers,
            0,
            true,
            false,
            is_subobject_with_lifetime,
            scalar_override,
        )
    }

    /// The lifetime parameters of a struct whose fields have the types
    /// `struct_type_specs`: `<'a>` when any of them borrows, else nothing.
    pub fn lifetime(struct_type_specs: &Vec<TypeSpec>) -> (r: &'static str)
        ensures
            r@ == if exists|i: int|
                0 <= i < struct_type_specs@.len() && (#[trigger] struct_type_specs@[i]).contains_lifetime_a {
                seq!['<', '\'', 'a', '>']
            } else {
                Seq::<char>::empty()
            },
    {
        proof {
            reveal_strlit("<'a>");
            reveal_strlit("");
            assert("<'a>"@ =~= seq!['<', '\'', 'a', '>']);
            assert(""@ =~= Seq::<char>::empty());
        }
        let mut i: usize = 0;
        while i < struct_type_specs.len()
            invariant
                "<'a>"@ == seq!['<', '\'', 'a', '>'],
                i <= struct_type_specs@.len(),
                forall|j: int| 0 <= j < i ==> !(#[trigger] struct_type_specs@[j]).contains_lifetime_a,
            decreases struct_type_specs.len() - i,
        {
            if struct_type_specs[i].contains_lifetime_a {
                assert(struct_type_specs@[i as int].contains_lifetime_a);
                return "<'a>";
            }
            i = i + 1;
        }
        ""
    }
}

} // verus!
