//! A schema type as it is used at one place: the named type and its wrappers.

use vstd::prelude::*;
use crate::document::Schema;
use crate::text::string_push;
use crate::wrappers::{TypeWrappers, WrappingType};

verus! {

/// A named type of `schema` (the one at position `definition`) together
/// with the wrappers it is used with.
pub struct Type<'a> {
    pub schema: &'a Schema,
    pub definition: usize,
    pub wrappers: TypeWrappers,
}

impl<'a> Type<'a> {
    /// The schema is well formed and the type is one of its types.
    pub open spec fn wf(&self) -> bool {
        &&& self.schema.wf()
        &&& self.definition < self.schema.types@.len()
    }

    /// The name of the named type.
    pub open spec fn spec_name(&self) -> Seq<char> {
        self.schema.types@[self.definition as int].name@
    }

    /// The name of the named type, without its wrappers.
    pub fn name(&self) -> (r: &'a str)
        requires
            self.wf(),
        ensures
            r@ == self.spec_name(),
    {
        self.schema.types[self.definition].name.as_str()
    }

    /// The wrappers, from the outermost to the innermost.
    pub fn wrappers(&self) -> (r: Vec<WrappingType>)
        ensures
            r@ == self.wrappers@,
    {
        self.wrappers.iter()
    }

    /// The same named type with other wrappers.
    pub fn with_wrappers(&self, wrappers: TypeWrappers) -> (r: Type<'a>)
        ensures
            r.schema == self.schema,
            r.definition == self.definition,
            r.wrappers@ == wrappers@,
    {
        Type { schema: self.schema, definition: self.definition, wrappers }
    }
}

/// A `[` for each list among the wrappers `w`, outermost first.
pub open spec fn list_openings(w: Seq<WrappingType>) -> Seq<char>
    decreases w.len(),
{
    if w.len() == 0 {
        Seq::empty()
    } else {
        list_openings(w.drop_last()) + if w.last() == WrappingType::List {
            seq!['[']
        } else {
            Seq::<char>::empty()
        }
    }
}

/// What closes the wrappers `w`, innermost first: a `!` for a non-null, a
/// `]` for a list.
pub open spec fn wrapper_closings(w: Seq<WrappingType>) -> Seq<char>
    decreases w.len(),
{
    if w.len() == 0 {
        Seq::empty()
    } else {
        seq![
            if w.last() == WrappingType::NonNull {
                '!'
            } else {
                ']'
            },
        ] + wrapper_closings(w.drop_last())
    }
}

/// A type as GraphQL writes it: `[Foo!]!` for a non-null list of non-null
/// `Foo`.
pub open spec fn type_notation(w: Seq<WrappingType>, name: Seq<char>) -> Seq<char> {
    list_openings(w) + name + wrapper_closings(w)
}

impl<'a> Type<'a> {
    /// The type as GraphQL writes it, with its wrappers.
    pub fn graphql_text(&self) -> (r: String)
        requires
            self.wf(),
        ensures
            r@ == type_notation(self.wrappers@, self.spec_name()),
    {
        let w = self.wrappers.iter();
        let mut out = String::new();
        let mut i: usize = 0;
        while i < w.len()
            invariant
                i <= w@.len(),
                out@ == list_openings(w@.take(i as int)),
            decreases w.len() - i,
        {
            proof {
                assert(w@.take(i + 1).drop_last() == w@.take(i as int));
                assert(w@.take(i + 1).last() == w@[i as int]);
            }
            if w[i] == WrappingType::List {
                string_push(&mut out, '[');
            }
            i = i + 1;
        }
        assert(w@.take(w@.len() as int) == w@);
        out.append(self.name());
        let ghost head = out@;
        proof {
            lemma_closings_len(w@);
        }
        let mut k: usize = w.len();
        while k > 0
            invariant
                k <= w@.len(),
                out@ == head + wrapper_closings(w@) .subrange(0, (w@.len() - k) as int),
                wrapper_closings(w@).len() == w@.len(),
            decreases k,
        {
            proof {
                lemma_closings_step(w@, k as int);
                let c = wrapper_closings(w@);
                assert(c.subrange(0, (w@.len() - k + 1) as int) == c.subrange(0, (w@.len() - k) as int).push(
                    c[w@.len() - k],
                ));
            }
            if w[k - 1] == WrappingType::NonNull {
                string_push(&mut out, '!');
            } else {
                string_push(&mut out, ']');
            }
            k = k - 1;
        }
        assert(wrapper_closings(w@).subrange(0, w@.len() as int) == wrapper_closings(w@));
        out
    }
}

proof fn lemma_closings_len(w: Seq<WrappingType>)
    ensures
        wrapper_closings(w).len() == w.len(),
    decreases w.len(),
{
    if w.len() > 0 {
        lemma_closings_len(w.drop_last());
    }
}

proof fn lemma_closings_step(w: Seq<WrappingType>, k: int)
    requires
        0 < k <= w.len(),
    ensures
        wrapper_closings(w).len() == w.len(),
        wrapper_closings(w)[w.len() - k] == if w[k - 1] == WrappingType::NonNull {
            '!'
        } else {
            ']'
        },
    decreases w.len(),
{
    lemma_closings_len(w);
    if k < w.len() {
        lemma_closings_step(w.drop_last(), k);
        lemma_closings_len(w.drop_last());
        assert(wrapper_closings(w)[w.len() - k] == wrapper_closings(w.drop_last())[w.len() - 1 - k]);
    }
}

} // verus!
