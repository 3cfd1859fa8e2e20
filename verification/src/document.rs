//! The parsed documents that code generation reads: the type system of the
//! schema and the values written in a query.

use vstd::prelude::*;
use crate::executable::OperationType;
use crate::text::str_eq;
use crate::wrappers::TypeWrappers;

verus! {

/// A reference to a named type together with its wrappers, as written in
/// a field, argument or variable definition (`[Foo!]!`).
pub struct TypeRef {
    pub name: String,
    pub wrappers: TypeWrappers,
}

/// An argument of a field or directive, or a field of an input object.
pub struct InputValueDefinition {
    pub name: String,
    pub ty: TypeRef,
}

/// A field of an object or interface type.
pub struct FieldDefinition {
    pub name: String,
    pub ty: TypeRef,
    pub arguments: Vec<InputValueDefinition>,
}

/// What kind of type a schema type is, with what it declares.
pub enum TypeKind {
    Scalar,
    Object { fields: Vec<FieldDefinition> },
    Interface { interface_fields: Vec<FieldDefinition> },
    Union { members: Vec<String> },
    Enum { values: Vec<String> },
    InputObject { input_fields: Vec<InputValueDefinition>, one_of: bool },
}

/// A named type of the schema, its definition and extensions merged.
pub struct SchemaType {
    pub name: String,
    pub kind: TypeKind,
}

/// One entry of a `schema { .. }` definition: the type that an operation
/// type starts from.
pub struct RootOperationTypeDefinition {
    pub operation_type: OperationType,
    pub named_type: String,
}

/// The type system of a schema.
pub struct Schema {
    pub types: Vec<SchemaType>,
    /// The entries of each `schema` definition and extension, in order.
    pub schema_definitions: Vec<Vec<RootOperationTypeDefinition>>,
    /// The names of the types that the document only extends: it holds
    /// extensions of them and no definition.
    pub extension_only: Vec<String>,
}

/// A value written in a query document.
pub enum Value {
    Variable(String),
    Int(i64),
    /// A float literal, kept as the text it is written with.
    Float(String),
    String(String),
    Boolean(bool),
    Null,
    Enum(String),
    List(Vec<Value>),
    Object(Vec<ObjectField>),
}

/// One `name: value` entry of an object value.
pub struct ObjectField {
    pub name: String,
    pub value: Value,
}

impl Schema {
    /// No two types of the schema share a name.
    pub open spec fn wf(&self) -> bool {
        forall|i: int, j: int|
            0 <= i < self.types@.len() && 0 <= j < self.types@.len() && i != j
                ==> #[trigger] self.types@[i].name@ != #[trigger] self.types@[j].name@
    }

    /// The schema has a type named `name`.
    pub open spec fn has_type(&self, name: Seq<char>) -> bool {
        exists|i: int| 0 <= i < self.types@.len() && #[trigger] self.types@[i].name@ == name
    }

    /// The document holds a definition of the type named `name`, not only
    /// extensions of it.
    pub open spec fn defines_type(&self, name: Seq<char>) -> bool {
        &&& self.has_type(name)
        &&& forall|k: int| 0 <= k < self.extension_only@.len() ==> #[trigger] self.extension_only@[k]@ != name
    }

    /// Whether the document only extends the type named `name`.
    pub fn is_extension_only(&self, name: &str) -> (r: bool)
        ensures
            r <==> exists|k: int| 0 <= k < self.extension_only@.len() && #[trigger] self.extension_only@[k]@ == name@,
    {
        let mut k: usize = 0;
        while k < self.extension_only.len()
            invariant
                k <= self.extension_only@.len(),
                forall|j: int| 0 <= j < k ==> #[trigger] self.extension_only@[j]@ != name@,
            decreases self.extension_only.len() - k,
        {
            if str_eq(self.extension_only[k].as_str(), name) {
                assert(self.extension_only@[k as int]@ == name@);
                return true;
            }
            k = k + 1;
        }
        false
    }

    /// The position of the type named `name`.
    pub open spec fn type_position(&self, name: Seq<char>) -> int {
        choose|i: int| 0 <= i < self.types@.len() && #[trigger] self.types@[i].name@ == name
    }

    /// Finds the type named `name`.
    pub fn type_index(&self, name: &str) -> (r: Option<usize>)
        requires
            self.wf(),
        ensures
            r is Some <==> self.has_type(name@),
            r matches Some(i) ==> i == self.type_position(name@) && i < self.types@.len()
                && self.types@[i as int].name@ == name@,
    {
        let mut i: usize = 0;
        while i < self.types.len()
            invariant
                self.wf(),
                i <= self.types@.len(),
                forall|j: int| 0 <= j < i ==> #[trigger] self.types@[j].name@ != name@,
            decreases self.types.len() - i,
        {
            if str_eq(self.types[i].name.as_str(), name) {
                proof {
                    assert(self.types@[i as int].name@ == name@);
                    assert(self.has_type(name@));
                    let k = self.type_position(name@);
                    assert(0 <= k < self.types@.len() && self.types@[k].name@ == name@);
                    if k != i {
                        assert(self.types@[k].name@ != self.types@[i as int].name@);
                    }
                }
                return Some(i);
            }
            i = i + 1;
        }
        None
    }
}

/// The field of `fields` named `name` that comes first, if any.
pub open spec fn input_field_position(fields: Seq<InputValueDefinition>, name: Seq<char>) -> Option<int> {
    if exists|i: int| 0 <= i < fields.len() && #[trigger] fields[i].name@ == name {
        Some(
            choose|i: int|
                0 <= i < fields.len() && #[trigger] fields[i].name@ == name && forall|j: int|
                    0 <= j < i ==> #[trigger] fields[j].name@ != name,
        )
    } else {
        None
    }
}

/// Finds the first field of `fields` named `name`.
pub fn find_input_field(fields: &Vec<InputValueDefinition>, name: &str) -> (r: Option<usize>)
    ensures
        r is Some <==> input_field_position(fields@, name@) is Some,
        r matches Some(i) ==> i < fields@.len() && input_field_position(fields@, name@) == Some(i as int),
{
    let mut i: usize = 0;
    while i < fields.len()
        invariant
            i <= fields@.len(),
            forall|j: int| 0 <= j < i ==> #[trigger] fields@[j].name@ != name@,
        decreases fields.len() - i,
    {
        if str_eq(fields[i].name.as_str(), name) {
            assert(fields@[i as int].name@ == name@);
            let ghost p = input_field_position(fields@, name@);
            assert(p is Some);
            let ghost k = p->0;
            assert(k == i) by {
                if k < i {
                    assert(fields@[k].name@ != name@);
                } else if k > i {
                    assert(fields@[i as int].name@ != name@);
                }
            }
            return Some(i);
        }
        i = i + 1;
    }
    None
}

} // verus!
