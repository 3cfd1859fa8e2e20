//! The list and non-null wrappers around a named GraphQL type.

use vstd::prelude::*;

verus! {

/// One layer around a named type: `!` or `[..]`.
#[derive(Clone, Copy, Debug, PartialEq, Eq, Structural)]
pub enum WrappingType {
    NonNull,
    List,
}

/// The wrappers of a type reference, from the outermost to the innermost:
/// `[Foo!]` is `List`, then `NonNull`.
#[derive(Debug)]
pub struct TypeWrappers {
    outer_to_inner: Vec<WrappingType>,
}

impl View for TypeWrappers {
    type V = Seq<WrappingType>;

    closed spec fn view(&self) -> Seq<WrappingType> {
        self.outer_to_inner@
    }
}

/// A copy of a vector of wrappers.
pub fn copy_wrappers(v: &Vec<WrappingType>) -> (r: Vec<WrappingType>)
    ensures
        r@ == v@,
{
    let mut r: Vec<WrappingType> = Vec::new();
    let mut i: usize = 0;
    while i < v.len()
        invariant
            i <= v.len(),
            r@ == v@.take(i as int),
        decreases v.len() - i,
    {
        r.push(v[i]);
        i = i + 1;
        assert(v@.take(i as int) == v@.take(i - 1).push(v@[i - 1]));
    }
    assert(v@.take(v.len() as int) == v@);
    r
}

impl TypeWrappers {
    /// No wrappers: a nullable named type.
    pub fn none() -> (r: TypeWrappers)
        ensures
            r@ == Seq::<WrappingType>::empty(),
    {
        TypeWrappers { outer_to_inner: Vec::new() }
    }

    /// The given wrappers, outermost first.
    pub fn from_outer_to_inner(v: Vec<WrappingType>) -> (r: TypeWrappers)
        ensures
            r@ == v@,
    {
        TypeWrappers { outer_to_inner: v }
    }

    /// Wraps the type in a new outermost `!`.
    pub fn wrap_non_null(self) -> (r: TypeWrappers)
        ensures
            r@ == seq![WrappingType::NonNull] + self@,
    {
        let mut v = self.outer_to_inner;
        v.insert(0, WrappingType::NonNull);
        TypeWrappers { outer_to_inner: v }
    }

    /// Wraps the type in a new outermost list.
    pub fn wrap_list(self) -> (r: TypeWrappers)
        ensures
            r@ == seq![WrappingType::List] + self@,
    {
        let mut v = self.outer_to_inner;
        v.insert(0, WrappingType::List);
        TypeWrappers { outer_to_inner: v }
    }

    /// The wrappers from the outermost to the innermost.
    pub fn iter(&self) -> (r: Vec<WrappingType>)
        ensures
            r@ == self@,
    {
        copy_wrappers(&self.outer_to_inner)
    }

    /// A copy of these wrappers.
    pub fn duplicate(&self) -> (r: TypeWrappers)
        ensures
            r@ == self@,
    {
        TypeWrappers { outer_to_inner: copy_wrappers(&self.outer_to_inner) }
    }
}

impl Default for TypeWrappers {
    fn default() -> (r: TypeWrappers)
        ensures
            r@ == Seq::<WrappingType>::empty(),
    {
        TypeWrappers::none()
    }
}

} // verus!
