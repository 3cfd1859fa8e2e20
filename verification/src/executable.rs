//! The definitions of a query document: its operations and fragments.

use vstd::prelude::*;
use crate::document::{TypeRef, Value};

verus! {

/// Which root type an operation starts from.
#[derive(Clone, Copy, Debug, PartialEq, Eq, Structural)]
pub enum OperationType {
    Query,
    Mutation,
    Subscription,
}

/// A variable that an operation declares: `$name: Type`.
pub struct VariableDefinition {
    pub name: String,
    pub ty: TypeRef,
}

/// An operation of a query document.
pub struct OperationDefinition {
    pub operation_type: OperationType,
    pub name: Option<String>,
    pub variable_definitions: Vec<VariableDefinition>,
    pub selection_set: Vec<Selection>,
}

/// A named fragment of a query document: `fragment name on TypeCondition`.
pub struct FragmentDefinition {
    pub name: String,
    pub type_condition: String,
    pub selection_set: Vec<Selection>,
}

/// An argument given to a field or a directive: `name: value`.
pub struct Argument {
    pub name: String,
    pub value: Value,
}

/// A directive applied to a selection: `@name(arguments)`.
pub struct Directive {
    pub name: String,
    pub arguments: Vec<Argument>,
}

/// One entry of a selection set.
pub enum Selection {
    Field(FieldSelection),
    InlineFragment(InlineFragment),
    FragmentSpread(FragmentSpread),
}

/// A selected field: `alias: name(arguments) @directives { selection_set }`.
pub struct FieldSelection {
    pub alias: Option<String>,
    pub name: String,
    pub arguments: Vec<Argument>,
    pub directives: Vec<Directive>,
    pub selection_set: Vec<Selection>,
}

/// An inline fragment: `... on TypeCondition @directives { selection_set }`,
/// where the type condition may be left out.
pub struct InlineFragment {
    pub type_condition: Option<String>,
    pub directives: Vec<Directive>,
    pub selection_set: Vec<Selection>,
}

/// A spread of a named fragment: `...name @directives`.
pub struct FragmentSpread {
    pub fragment_name: String,
    pub directives: Vec<Directive>,
}

/// The position of an operation in its document.
#[derive(Clone, Copy, Debug, PartialEq, Eq, Structural)]
pub struct OperationDefinitionId(pub usize);

/// The position of a fragment in its document.
#[derive(Clone, Copy, Debug, PartialEq, Eq, Structural)]
pub struct FragmentDefinitionId(pub usize);

/// A definition of a query document, by id.
#[derive(Clone, Copy, Debug, PartialEq, Eq, Structural)]
pub enum ExecutableDefinitionRecord {
    Operation(OperationDefinitionId),
    Fragment(FragmentDefinitionId),
}

/// A definition of a query document: an operation or a fragment.
#[derive(Clone, Copy)]
pub enum ExecutableDefinition<'a> {
    Operation(&'a OperationDefinition),
    Fragment(&'a FragmentDefinition),
}

impl<'a> ExecutableDefinition<'a> {
    /// Whether the definition is an operation.
    pub fn is_operation(&self) -> (r: bool)
        ensures
            r == (self is Operation),
    {
        match self {
            ExecutableDefinition::Operation(_) => true,
            _ => false,
        }
    }

    /// The operation, when the definition is one.
    pub fn as_operation(self) -> (r: Option<&'a OperationDefinition>)
        ensures
            r == match self {
                ExecutableDefinition::Operation(inner) => Some(inner),
                _ => None::<&'a OperationDefinition>,
            },
    {
        match self {
            ExecutableDefinition::Operation(inner) => Some(inner),
            _ => None,
        }
    }

    /// Whether the definition is a fragment.
    pub fn is_fragment(&self) -> (r: bool)
        ensures
            r == (self is Fragment),
    {
        match self {
            ExecutableDefinition::Fragment(_) => true,
            _ => false,
        }
    }

    /// The fragment, when the definition is one.
    pub fn as_fragment(self) -> (r: Option<&'a FragmentDefinition>)
        ensures
            r == match self {
                ExecutableDefinition::Fragment(inner) => Some(inner),
                _ => None::<&'a FragmentDefinition>,
            },
    {
        match self {
            ExecutableDefinition::Fragment(inner) => Some(inner),
            _ => None,
        }
    }
}

/// A definition is either an operation or a fragment, never both, and it
/// gives itself up as an operation exactly when it is one, likewise as a
/// fragment.
pub proof fn law_definition_kinds(d: ExecutableDefinition)
    ensures
        (d is Operation) != (d is Fragment),
        (d is Operation) == (match d {
            ExecutableDefinition::Operation(inner) => Some(inner),
            _ => None::<&OperationDefinition>,
        } is Some),
        (d is Fragment) == (match d {
            ExecutableDefinition::Fragment(inner) => Some(inner),
            _ => None::<&FragmentDefinition>,
        } is Some),
{
}

} // verus!
