//! Values of a query paired with the schema type they are read at, and the
//! Rust literal each of them is written as in generated code.

use vstd::prelude::*;
use crate::casing::{snake_case, to_snake_case};
use crate::document::{input_field_position, find_input_field, ObjectField, Schema, TypeKind, Value};
use crate::graph::types::Type;
use crate::text::{
    char_is_ascii_control, i64_to_decimal, int_decimal, str_chars,
    string_push,
};
use crate::wrappers::{TypeWrappers, WrappingType};

verus! {

/// A value together with the type it has at the place it is written.
pub enum TypedValue<'a> {
    Variable(TypedVariableValue<'a>),
    Int(TypedIntValue<'a>),
    Float(TypedFloatValue<'a>),
    String(TypedStringValue<'a>),
    Boolean(TypedBooleanValue<'a>),
    Null(TypedNullValue<'a>),
    Enum(TypedEnumValue<'a>),
    List(TypedList<'a>),
    Object(TypedObject<'a>),
}

/// A variable, by name.
pub struct TypedVariableValue<'a> {
    pub value: &'a String,
    pub ty: Type<'a>,
}

pub struct TypedIntValue<'a> {
    pub value: i64,
    pub ty: Type<'a>,
}

/// A float, as the text it is written with.
pub struct TypedFloatValue<'a> {
    pub value: &'a String,
    pub ty: Type<'a>,
}

pub struct TypedStringValue<'a> {
    pub value: &'a String,
    pub ty: Type<'a>,
}

pub struct TypedBooleanValue<'a> {
    pub value: bool,
    pub ty: Type<'a>,
}

pub struct TypedNullValue<'a> {
    pub ty: Type<'a>,
}

pub struct TypedEnumValue<'a> {
    pub value: &'a String,
    pub ty: Type<'a>,
}

pub struct TypedList<'a> {
    pub value: &'a Vec<Value>,
    pub ty: Type<'a>,
}

pub struct TypedObject<'a> {
    pub value: &'a Vec<ObjectField>,
    pub ty: Type<'a>,
}

/// One field of an object value, its value typed by the input object's field.
pub struct TypedObjectField<'a> {
    pub name: &'a str,
    pub value: TypedValue<'a>,
}

impl<'a> TypedValue<'a> {
    /// The value without its type.
    pub open spec fn untyped(&self) -> Value {
        match self {
            TypedValue::Variable(v) => Value::Variable(*v.value),
            TypedValue::Int(v) => Value::Int(v.value),
            TypedValue::Float(v) => Value::Float(*v.value),
            TypedValue::String(v) => Value::String(*v.value),
            TypedValue::Boolean(v) => Value::Boolean(v.value),
            TypedValue::Null(_) => Value::Null,
            TypedValue::Enum(v) => Value::Enum(*v.value),
            TypedValue::List(v) => Value::List(*v.value),
            TypedValue::Object(v) => Value::Object(*v.value),
        }
    }

    /// The type the value is read at.
    pub open spec fn type_of(&self) -> Type<'a> {
        match self {
            TypedValue::Variable(v) => v.ty,
            TypedValue::Int(v) => v.ty,
            TypedValue::Float(v) => v.ty,
            TypedValue::String(v) => v.ty,
            TypedValue::Boolean(v) => v.ty,
            TypedValue::Null(v) => v.ty,
            TypedValue::Enum(v) => v.ty,
            TypedValue::List(v) => v.ty,
            TypedValue::Object(v) => v.ty,
        }
    }

    /// Pairs `value` with the type `ty`.
    pub fn new(value: &'a Value, ty: Type<'a>) -> (r: TypedValue<'a>)
        ensures
            r.untyped() == *value,
            r.type_of() == ty,
    {
        match value {
            Value::Variable(v) => TypedValue::Variable(TypedVariableValue { value: v, ty }),
            Value::Int(v) => TypedValue::Int(TypedIntValue { value: *v, ty }),
            Value::Float(v) => TypedValue::Float(TypedFloatValue { value: v, ty }),
            Value::String(v) => TypedValue::String(TypedStringValue { value: v, ty }),
            Value::Boolean(v) => TypedValue::Boolean(TypedBooleanValue { value: *v, ty }),
            Value::Null => TypedValue::Null(TypedNullValue { ty }),
            Value::Enum(v) => TypedValue::Enum(TypedEnumValue { value: v, ty }),
            Value::List(v) => TypedValue::List(TypedList { value: v, ty }),
            Value::Object(v) => TypedValue::Object(TypedObject { value: v, ty }),
        }
    }
}

impl<'a> TypedVariableValue<'a> {
    /// The name of the variable.
    pub fn name(&self) -> (r: &'a str)
        ensures
            r@ == self.value@,
    {
        self.value.as_str()
    }

    /// The type the variable is used at.
    pub fn ty(&self) -> (r: Type<'a>)
        ensures
            r.schema == self.ty.schema,
            r.definition == self.ty.definition,
            r.wrappers@ == self.ty.wrappers@,
    {
        self.ty.with_wrappers(self.ty.wrappers.duplicate())
    }
}

/// The wrappers of the items of a list of type `w`: the list's own `!` and
/// its list wrapper are taken off.
pub open spec fn list_item_wrappers(w: Seq<WrappingType>) -> Seq<WrappingType> {
    let w1 = if w.len() > 0 && w[0] == WrappingType::NonNull {
        w.drop_first()
    } else {
        w
    };
    if w1.len() > 0 && w1[0] == WrappingType::List {
        w1.drop_first()
    } else {
        w1
    }
}

impl<'a> TypedList<'a> {
    /// The items of the list, each read at the list's item type.
    pub fn items(&self) -> (r: Vec<TypedValue<'a>>)
        ensures
            r@.len() == self.value@.len(),
            forall|i: int|
                #![trigger r@[i]]
                0 <= i < r@.len() ==> {
                    &&& r@[i].untyped() == self.value@[i]
                    &&& r@[i].type_of().schema == self.ty.schema
                    &&& r@[i].type_of().definition == self.ty.definition
                    &&& r@[i].type_of().wrappers@ == list_item_wrappers(self.ty.wrappers@)
                },
    {
        let w = self.ty.wrappers();
        let mut start: usize = 0;
        if start < w.len() && w[start] == WrappingType::NonNull {
            start = start + 1;
        }
        if start < w.len() && w[start] == WrappingType::List {
            start = start + 1;
        }
        let mut inner: Vec<WrappingType> = Vec::new();
        let mut k: usize = start;
        while k < w.len()
            invariant
                start <= k <= w@.len(),
                inner@ == w@.subrange(start as int, k as int),
            decreases w.len() - k,
        {
            inner.push(w[k]);
            k = k + 1;
        }
        proof {
            let w0 = self.ty.wrappers@;
            assert(w@ == w0);
            let w1 = if w0.len() > 0 && w0[0] == WrappingType::NonNull {
                w0.drop_first()
            } else {
                w0
            };
            if w0.len() > 0 && w0[0] == WrappingType::NonNull {
                if w1.len() > 0 && w1[0] == WrappingType::List {
                    assert(list_item_wrappers(w0) == w0.subrange(2, w0.len() as int));
                } else {
                    assert(list_item_wrappers(w0) == w0.subrange(1, w0.len() as int));
                }
            } else {
                if w1.len() > 0 && w1[0] == WrappingType::List {
                    assert(list_item_wrappers(w0) == w0.subrange(1, w0.len() as int));
                } else {
                    assert(list_item_wrappers(w0) == w0.subrange(0, w0.len() as int));
                }
            }
        }
        let item_wrappers = TypeWrappers::from_outer_to_inner(inner);
        let mut r: Vec<TypedValue<'a>> = Vec::new();
        let mut i: usize = 0;
        while i < self.value.len()
            invariant
                i <= self.value@.len(),
                r@.len() == i,
                item_wrappers@ == list_item_wrappers(self.ty.wrappers@),
                forall|j: int|
                    #![trigger r@[j]]
                    0 <= j < i ==> {
                        &&& r@[j].untyped() == self.value@[j]
                        &&& r@[j].type_of().schema == self.ty.schema
                        &&& r@[j].type_of().definition == self.ty.definition
                        &&& r@[j].type_of().wrappers@ == list_item_wrappers(self.ty.wrappers@)
                    },
            decreases self.value.len() - i,
        {
            let ty = self.ty.with_wrappers(item_wrappers.duplicate());
            r.push(TypedValue::new(&self.value[i], ty));
            i = i + 1;
        }
        r
    }
}

/// Every field of the object value `fields` is a field of the input object
/// at position `definition` of `schema`, and the type of that field is a
/// type of the schema.
#[verifier::opaque]
pub open spec fn object_fields_resolve(schema: Schema, definition: int, fields: Seq<ObjectField>) -> bool {
    &&& 0 <= definition < schema.types@.len()
    &&& schema.types@[definition].kind matches TypeKind::InputObject { input_fields, .. }
    &&& forall|k: int|
        #![trigger fields[k]]
        0 <= k < fields.len() ==> {
            &&& input_field_position(input_fields@, fields[k].name@) is Some
            &&& schema.has_type(
                input_fields@[input_field_position(input_fields@, fields[k].name@)->0].ty.name@,
            )
        }
}

/// The type at which an object value reads its field named `name`: the
/// schema position of the input object field's named type.
#[verifier::opaque]
pub open spec fn object_field_definition(schema: Schema, definition: int, name: Seq<char>) -> int {
    match schema.types@[definition].kind {
        TypeKind::InputObject { input_fields, .. } => schema.type_position(
            input_fields@[input_field_position(input_fields@, name)->0].ty.name@,
        ),
        _ => 0,
    }
}

/// The wrappers of the input object field named `name`.
#[verifier::opaque]
pub open spec fn object_field_wrappers(schema: Schema, definition: int, name: Seq<char>) -> Seq<WrappingType> {
    match schema.types@[definition].kind {
        TypeKind::InputObject { input_fields, .. } => input_fields@[input_field_position(
            input_fields@,
            name,
        )->0].ty.wrappers@,
        _ => Seq::empty(),
    }
}

impl<'a> TypedObject<'a> {
    /// The fields of the object value, each read at the type its input
    /// object field declares.
    pub fn fields(&self) -> (r: Vec<TypedObjectField<'a>>)
        requires
            self.ty.wf(),
            object_fields_resolve(*self.ty.schema, self.ty.definition as int, self.value@),
        ensures
            r@.len() == self.value@.len(),
            forall|k: int|
                #![trigger r@[k]]
                0 <= k < r@.len() ==> {
                    &&& r@[k].name@ == self.value@[k].name@
                    &&& r@[k].value.untyped() == self.value@[k].value
                    &&& r@[k].value.type_of().schema == self.ty.schema
                    &&& r@[k].value.type_of().definition == object_field_definition(
                        *self.ty.schema,
                        self.ty.definition as int,
                        self.value@[k].name@,
                    )
                    &&& r@[k].value.type_of().wrappers@ == object_field_wrappers(
                        *self.ty.schema,
                        self.ty.definition as int,
                        self.value@[k].name@,
                    )
                },
    {
        reveal(object_fields_resolve);
        reveal(object_field_definition);
        reveal(object_field_wrappers);
        let schema = self.ty.schema;
        let input_fields = match &schema.types[self.ty.definition].kind {
            TypeKind::InputObject { input_fields, .. } => input_fields,
            _ => {
                proof {
                    assert(false);
                }
                return Vec::new();
            },
        };
        let mut r: Vec<TypedObjectField<'a>> = Vec::new();
        let mut k: usize = 0;
        while k < self.value.len()
            invariant
                self.ty.wf(),
                schema == self.ty.schema,
                object_fields_resolve(*schema, self.ty.definition as int, self.value@),
                schema.types@[self.ty.definition as int].kind matches TypeKind::InputObject {
                    input_fields: f,
                    ..
                } && f == *input_fields,
                k <= self.value@.len(),
                r@.len() == k,
                forall|j: int|
                    #![trigger r@[j]]
                    0 <= j < k ==> {
                        &&& r@[j].name@ == self.value@[j].name@
                        &&& r@[j].value.untyped() == self.value@[j].value
                        &&& r@[j].value.type_of().schema == self.ty.schema
                        &&& r@[j].value.type_of().definition == object_field_definition(
                            *self.ty.schema,
                            self.ty.definition as int,
                            self.value@[j].name@,
                        )
                        &&& r@[j].value.type_of().wrappers@ == object_field_wrappers(
                            *self.ty.schema,
                            self.ty.definition as int,
                            self.value@[j].name@,
                        )
                    },
            decreases self.value.len() - k,
        {
            proof {
                reveal(object_fields_resolve);
                reveal(object_field_definition);
                reveal(object_field_wrappers);
            }
            let field = &self.value[k];
            assert(self.value@[k as int] == *field);
            let p = match find_input_field(input_fields, field.name.as_str()) {
                Some(p) => p,
                None => {
                    proof {
                        assert(false);
                    }
                    return r;
                },
            };
            let def = &input_fields[p];
            let d = match schema.type_index(def.ty.name.as_str()) {
                Some(d) => d,
                None => {
                    proof {
                        assert(false);
                    }
                    return r;
                },
            };
            let ty = Type { schema, definition: d, wrappers: def.ty.wrappers.duplicate() };
            r.push(TypedObjectField { name: field.name.as_str(), value: TypedValue::new(&field.value, ty) });
            k = k + 1;
        }
        r
    }
}

impl<'a> TypedObjectField<'a> {
    /// The name of the field.
    pub fn name(&self) -> (r: &'a str)
        ensures
            r@ == self.name@,
    {
        self.name
    }

    /// The value of the field, with its type.
    pub fn value(&self) -> (r: &TypedValue<'a>)
        ensures
            *r == self.value,
    {
        &self.value
    }
}

/// Whether a string has a character that a plain Rust string literal would
/// have to escape: an ASCII control character or a double quote.
pub open spec fn needs_raw_literal(s: Seq<char>) -> bool {
    exists|i: int| 0 <= i < s.len() && (((s[i] as u32) < 0x20 || (s[i] as u32) == 0x7f || s[i] == '"'))
}

/// The Rust literal for a GraphQL string: a raw string when the text
/// holds a character a plain literal would have to escape.
pub open spec fn string_literal(s: Seq<char>) -> Seq<char> {
    if needs_raw_literal(s) {
        seq!['r', '#', '"'] + s + seq!['"', '#']
    } else {
        seq!['"'] + s + seq!['"']
    }
}

/// How many entries a list or object value has, plus one.
pub open spec fn value_width(v: Value) -> nat {
    match v {
        Value::List(items) => items@.len() + 1,
        Value::Object(fields) => fields@.len() + 1,
        _ => 0,
    }
}

/// The Rust literal that a value is written as in generated code.
pub open spec fn value_literal(v: Value) -> Seq<char>
    decreases v, value_width(v),
{
    match v {
        Value::Variable(name) => seq!['$'] + snake_case(name@),
        Value::Int(n) => int_decimal(n as int),
        Value::Float(text) => text@,
        Value::String(s) => string_literal(s@),
        Value::Boolean(b) => if b {
            seq!['t', 'r', 'u', 'e']
        } else {
            seq!['f', 'a', 'l', 's', 'e']
        },
        Value::Null => seq!['n', 'u', 'l', 'l'],
        Value::Enum(e) => seq!['"'] + e@ + seq!['"'],
        Value::List(items) => seq!['['] + entries_literal(v, items@.len()) + seq![']'],
        Value::Object(fields) => seq!['{', ' '] + entries_literal(v, fields@.len()) + seq![' ', '}'],
    }
}

/// The literals of the first `n` entries of a list or object value, joined
/// by `, `; an object entry is written `name: literal`.
pub open spec fn entries_literal(v: Value, n: nat) -> Seq<char>
    decreases v, n,
{
    match v {
        Value::List(items) => if n == 0 || n > items@.len() {
            Seq::empty()
        } else {
            let last = value_literal(items@[n - 1]);
            if n == 1 {
                last
            } else {
                entries_literal(v, (n - 1) as nat) + seq![',', ' '] + last
            }
        },
        Value::Object(fields) => if n == 0 || n > fields@.len() {
            Seq::empty()
        } else {
            let last = fields@[n - 1].name@ + seq![':', ' '] + value_literal(fields@[n - 1].value);
            if n == 1 {
                last
            } else {
                entries_literal(v, (n - 1) as nat) + seq![',', ' '] + last
            }
        },
        _ => Seq::empty(),
    }
}

/// Every object written in `v`, however deeply, names only fields of the
/// input object it is read at (the type at position `definition` of
/// `schema`, for `v` itself), and their types are types of the schema.
pub open spec fn value_resolves(schema: Schema, definition: int, v: Value) -> bool
    decreases v,
{
    match v {
        Value::List(items) => forall|i: int|
            0 <= i < items@.len() ==> value_resolves(schema, definition, #[trigger] items@[i]),
        Value::Object(fields) => {
            &&& object_fields_resolve(schema, definition, fields@)
            &&& forall|k: int|
                0 <= k < fields@.len() ==> value_resolves(
                    schema,
                    object_field_definition(schema, definition, fields@[k].name@),
                    (#[trigger] fields@[k]).value,
                )
        },
        _ => true,
    }
}

proof fn lemma_list_unfold(schema: Schema, d: int, v: Vec<Value>)
    ensures
        value_resolves(schema, d, Value::List(v)) == (forall|i: int|
            0 <= i < v@.len() ==> value_resolves(schema, d, #[trigger] v@[i])),
{
    let l = Value::List(v);
    assert(l matches Value::List(items) && items == v);
}

proof fn lemma_object_unfold(schema: Schema, d: int, v: Vec<ObjectField>)
    ensures
        value_resolves(schema, d, Value::Object(v)) == ({
            &&& object_fields_resolve(schema, d, v@)
            &&& forall|k: int|
                0 <= k < v@.len() ==> value_resolves(
                    schema,
                    object_field_definition(schema, d, v@[k].name@),
                    (#[trigger] v@[k]).value,
                )
        }),
{
    let o = Value::Object(v);
    assert(o matches Value::Object(fields) && fields == v);
}

/// Whether `s` holds an ASCII control character or a double quote, which
/// a plain Rust string literal would have to escape.
pub fn string_needs_raw_literal(s: &str) -> (r: bool)
    ensures
        r == needs_raw_literal(s@),
{
    let chars = str_chars(s);
    let mut i: usize = 0;
    while i < chars.len()
        invariant
            chars@ == s@,
            i <= chars@.len(),
            forall|j: int|
                0 <= j < i ==> !((#[trigger] s@[j] as u32) < 0x20 || (s@[j] as u32) == 0x7f || s@[j]
                    == '"'),
        decreases chars.len() - i,
    {
        let c = chars[i];
        if char_is_ascii_control(c) || c == '"' {
            assert(((s@[i as int] as u32) < 0x20 || (s@[i as int] as u32) == 0x7f || s@[i as int] == '"'));
            return true;
        }
        i = i + 1;
    }
    false
}

/// A string holding the characters of `s`.
fn chars_string(s: &str) -> (r: String)
    ensures
        r@ == s@,
{
    s.to_owned()
}

impl<'a> TypedValue<'a> {
    /// The Rust literal this value is written as in generated code: `$` and
    /// the snake-cased name for a variable, the literal itself for a
    /// number, boolean or `null`, a quoted string (raw when it has to be)
    /// for a string, the quoted name for an enum value, `[a, b]` for a list
    /// and `{ f: a, g: b }` for an object.
    pub fn into_literal(&self) -> (r: String)
        requires
            self.type_of().wf(),
            value_resolves(*self.type_of().schema, self.type_of().definition as int, self.untyped()),
        ensures
            r@ == value_literal(self.untyped()),
        decreases self.untyped(), value_width(self.untyped()) + 1,
    {
        match self {
            TypedValue::Variable(v) => {
                let name = to_snake_case(v.value.as_str());
                let mut r = String::new();
                string_push(&mut r, '$');
                r.append(name.as_str());
                r
            },
            TypedValue::Int(v) => i64_to_decimal(v.value),
            TypedValue::Float(v) => chars_string(v.value.as_str()),
            TypedValue::String(v) => {
                let raw = string_needs_raw_literal(v.value.as_str());
                let mut r = String::new();
                if raw {
                    string_push(&mut r, 'r');
                    string_push(&mut r, '#');
                    string_push(&mut r, '"');
                    r.append(v.value.as_str());
                    string_push(&mut r, '"');
                    string_push(&mut r, '#');
                } else {
                    string_push(&mut r, '"');
                    r.append(v.value.as_str());
                    string_push(&mut r, '"');
                }
                r
            },
            TypedValue::Boolean(v) => {
                let mut r = String::new();
                if v.value {
                    string_push(&mut r, 't');
                    string_push(&mut r, 'r');
                    string_push(&mut r, 'u');
                    string_push(&mut r, 'e');
                } else {
                    string_push(&mut r, 'f');
                    string_push(&mut r, 'a');
                    string_push(&mut r, 'l');
                    string_push(&mut r, 's');
                    string_push(&mut r, 'e');
                }
                r
            },
            TypedValue::Null(_) => {
                let mut r = String::new();
                string_push(&mut r, 'n');
                string_push(&mut r, 'u');
                string_push(&mut r, 'l');
                string_push(&mut r, 'l');
                r
            },
            TypedValue::Enum(v) => {
                let mut r = String::new();
                string_push(&mut r, '"');
                r.append(v.value.as_str());
                string_push(&mut r, '"');
                r
            },
            TypedValue::List(list) => list_literal(list),
            TypedValue::Object(object) => object_literal(object),
        }
    }
}

/// The literal of a list value: `[`, its items' literals joined by `, `, `]`.
fn list_literal<'a>(list: &TypedList<'a>) -> (r: String)
    requires
        list.ty.wf(),
        value_resolves(*list.ty.schema, list.ty.definition as int, Value::List(*list.value)),
    ensures
        r@ == value_literal(Value::List(*list.value)),
    decreases Value::List(*list.value), 0nat,
{
    proof {
        lemma_list_unfold(*list.ty.schema, list.ty.definition as int, *list.value);
    }
    let items = list.items();
    let ghost lv = Value::List(*list.value);
    let ghost vs = list.value@;
    let mut r = String::new();
    string_push(&mut r, '[');
    let mut i: usize = 0;
    while i < items.len()
        invariant
            lv == Value::List(*list.value),
            vs == list.value@,
            list.ty.wf(),
            forall|j: int|
                0 <= j < vs.len() ==> value_resolves(*list.ty.schema, list.ty.definition as int, #[trigger] vs[j]),
            items@.len() == vs.len(),
            forall|j: int|
                #![trigger items@[j]]
                0 <= j < items@.len() ==> {
                    &&& items@[j].untyped() == vs[j]
                    &&& items@[j].type_of().schema == list.ty.schema
                    &&& items@[j].type_of().definition == list.ty.definition
                },
            i <= items@.len(),
            r@ == seq!['['] + entries_literal(lv, i as nat),
        decreases items.len() - i,
    {
        let item = &items[i];
        proof {
            assert(items@[i as int].untyped() == vs[i as int]);
            let v = *list.value;
            assert(decreases_to!(lv => lv->List_0));
            assert(decreases_to!(v => v@));
            assert(decreases_to!(v@ => v@[i as int]));
            assert(decreases_to!(lv => v@[i as int]));
        }
        let lit = item.into_literal();
        proof {
            lemma_list_entries_step(*list.value, i as nat);
        }
        if i > 0 {
            string_push(&mut r, ',');
            string_push(&mut r, ' ');
        }
        r.append(lit.as_str());
        i = i + 1;
    }
    string_push(&mut r, ']');
    r
}

/// The literal of an object value: `{ `, its `name: literal` entries joined
/// by `, `, ` }`.
#[verifier::rlimit(40)]
fn object_literal<'a>(object: &TypedObject<'a>) -> (r: String)
    requires
        object.ty.wf(),
        value_resolves(*object.ty.schema, object.ty.definition as int, Value::Object(*object.value)),
    ensures
        r@ == value_literal(Value::Object(*object.value)),
    decreases Value::Object(*object.value), 0nat,
{
    proof {
        lemma_object_unfold(*object.ty.schema, object.ty.definition as int, *object.value);
    }
    let fields = object.fields();
    let ghost ov = Value::Object(*object.value);
    let ghost fs = object.value@;
    let mut r = String::new();
    string_push(&mut r, '{');
    string_push(&mut r, ' ');
    let mut i: usize = 0;
    while i < fields.len()
        invariant
            ov == Value::Object(*object.value),
            fs == object.value@,
            object.ty.wf(),
            object_fields_resolve(*object.ty.schema, object.ty.definition as int, fs),
            forall|k: int|
                0 <= k < fs.len() ==> value_resolves(
                    *object.ty.schema,
                    object_field_definition(*object.ty.schema, object.ty.definition as int, fs[k].name@),
                    (#[trigger] fs[k]).value,
                ),
            fields@.len() == fs.len(),
            forall|k: int|
                #![trigger fields@[k]]
                0 <= k < fields@.len() ==> {
                    &&& fields@[k].name@ == fs[k].name@
                    &&& fields@[k].value.untyped() == fs[k].value
                    &&& fields@[k].value.type_of().schema == object.ty.schema
                    &&& fields@[k].value.type_of().definition == object_field_definition(
                        *object.ty.schema,
                        object.ty.definition as int,
                        fs[k].name@,
                    )
                },
            i <= fields@.len(),
            r@ == seq!['{', ' '] + entries_literal(ov, i as nat),
        decreases fields.len() - i,
    {
        let field = &fields[i];
        proof {
            assert(fields@[i as int].value.untyped() == fs[i as int].value);
            let v = *object.value;
            assert(decreases_to!(ov => ov->Object_0));
            assert(decreases_to!(v => v@));
            assert(decreases_to!(v@ => v@[i as int]));
            assert(decreases_to!(v@[i as int] => v@[i as int].value));
            assert(decreases_to!(ov => v@[i as int].value));
            lemma_field_type_wf(*object.ty.schema, object.ty.definition as int, fs, i as int);
        }
        let lit = field.value.into_literal();
        proof {
            lemma_object_entries_step(*object.value, i as nat);
        }
        if i > 0 {
            string_push(&mut r, ',');
            string_push(&mut r, ' ');
        }
        r.append(field.name);
        string_push(&mut r, ':');
        string_push(&mut r, ' ');
        r.append(lit.as_str());
        i = i + 1;
    }
    string_push(&mut r, ' ');
    string_push(&mut r, '}');
    r
}

proof fn lemma_object_entries_step(v: Vec<ObjectField>, i: nat)
    requires
        i < v@.len(),
    ensures
        entries_literal(Value::Object(v), i + 1) == {
            let last = v@[i as int].name@ + seq![':', ' '] + value_literal(v@[i as int].value);
            if i == 0 {
                last
            } else {
                entries_literal(Value::Object(v), i) + seq![',', ' '] + last
            }
        },
{
    let o = Value::Object(v);
    assert(o matches Value::Object(fields) && fields == v);
}

proof fn lemma_list_entries_step(v: Vec<Value>, i: nat)
    requires
        i < v@.len(),
    ensures
        entries_literal(Value::List(v), i + 1) == if i == 0 {
            value_literal(v@[i as int])
        } else {
            entries_literal(Value::List(v), i) + seq![',', ' '] + value_literal(v@[i as int])
        },
{
    let l = Value::List(v);
    assert(l matches Value::List(items) && items == v);
}

proof fn lemma_field_type_wf(schema: Schema, d: int, fs: Seq<ObjectField>, i: int)
    requires
        schema.wf(),
        object_fields_resolve(schema, d, fs),
        0 <= i < fs.len(),
    ensures
        0 <= object_field_definition(schema, d, fs[i].name@) < schema.types@.len(),
{
    reveal(object_fields_resolve);
    reveal(object_field_definition);
    let f = fs[i];
    if let TypeKind::InputObject { input_fields, .. } = schema.types@[d].kind {
        let name = input_fields@[input_field_position(input_fields@, f.name@)->0].ty.name@;
        assert(schema.has_type(name));
        let p = schema.type_position(name);
        assert(0 <= p < schema.types@.len() && schema.types@[p].name@ == name);
    }
}

} // verus!
