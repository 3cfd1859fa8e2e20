//! Generation of Rust query structs from GraphQL documents: the naming,
//! casing, typing and literal-rendering rules behind the generated code,
//! and the generator that holds a schema and the options for it.

pub mod casing;
pub mod coordinate;
pub mod document;
pub mod executable;
pub mod fragment_structs;
pub mod graph;
pub mod ingest;
pub mod inputs;
pub mod leaf_types;
pub mod maps;
pub mod naming;
pub mod output;
pub mod processing;
pub mod text;
pub mod transforms;
pub mod type_spec;
pub mod variables;
pub mod wrappers;

use vstd::prelude::*;
use crate::coordinate::{parse_coordinate, parse_schema_coordinate, CoordinateSyntaxError, CoordinateView, SchemaCoordinate, coordinate_text};
use crate::document::Schema;
use crate::maps::{OverrideMap, ScalarTypeMap};

verus! {

/// Why a query could not be turned into Rust code.
pub enum Error {
    UnsupportedQueryDocument(String),
    QueryParseError(String),
    SchemaParseError(String),
    UnknownField(String, String),
    UnknownEnum(String),
    UnknownType(String),
    UnknownDirective(String),
    ExpectedObject(String),
    ExpectedObjectOrInterface(String),
    ExpectedInputObject(String),
    ArgumentNotInputObject,
    UnknownArgument(String),
    ArgumentNotEnum,
    ExpectedInputType,
    ExpectedOutputType,
    ExpectedInterfaceType,
    ExpectedHomogenousList,
    ExpectedListType,
    ExpectedInputObjectValue,
    UnknownFragment(String),
    TypeConditionFailed(String, String),
    TypeNotUnionMember(String, String),
    TypeDoesNotImplementInterface(String, String),
    CouldntFindRootType(String),
    NoFieldSelected(String),
    TriedToSelectFieldsOfNonComposite(String),
    MissingTypeCondition,
}

/// The message that describes an error.
pub open spec fn error_message(e: Error) -> Seq<char> {
    match e {
        Error::UnsupportedQueryDocument(a) => "Query document not supported: "@ + a@,
        Error::QueryParseError(a) => "could not parse query document: "@ + a@,
        Error::SchemaParseError(a) => "could not parse schema document: "@ + a@,
        Error::UnknownField(a, b) => "could not find field `"@ + a@ + "` on `"@ + b@ + "`"@,
        Error::UnknownEnum(a) => "could not find enum `"@ + a@ + "`"@,
        Error::UnknownType(a) => "could not find type `"@ + a@ + "`"@,
        Error::UnknownDirective(a) => "could not find directive `"@ + a@ + "`"@,
        Error::ExpectedObject(a) => "expected type `"@ + a@ + "` to be an object"@,
        Error::ExpectedObjectOrInterface(a) => "expected type `"@ + a@ + "` to be an object or an interface"@,
        Error::ExpectedInputObject(a) => "expected type `"@ + a@ + "` to be an input object"@,
        Error::ArgumentNotInputObject => "found a literal object but the argument is not an InputObject"@,
        Error::UnknownArgument(a) => "couldn't find an argument named `"@ + a@ + "`"@,
        Error::ArgumentNotEnum => "an enum-like value was provided to an argument that is not an enum"@,
        Error::ExpectedInputType => "expected an input object, enum or scalar"@,
        Error::ExpectedOutputType => "expected an enum, scalar, object, union or interface"@,
        Error::ExpectedInterfaceType => "expected an interface"@,
        Error::ExpectedHomogenousList => "expected a homogeneous list of input values"@,
        Error::ExpectedListType => "expected field to be a list"@,
        Error::ExpectedInputObjectValue => "expected a value that is or contains an input object"@,
        Error::UnknownFragment(a) => "couldn't find a fragment named "@ + a@,
        Error::TypeConditionFailed(a, b) => "Tried to apply a fragment for a "@ + a@ + " type on a "@ + b@
            + " type"@,
        Error::TypeNotUnionMember(a, b) => a@ + " is not a member of the "@ + b@ + " union type"@,
        Error::TypeDoesNotImplementInterface(a, b) => a@ + " does not implement the "@ + b@ + " interface"@,
        Error::CouldntFindRootType(a) => "Could not find a type named "@ + a@
            + ", which we expected to be the root type"@,
        Error::NoFieldSelected(a) => "At least one field should be selected for `"@ + a@ + "`."@,
        Error::TriedToSelectFieldsOfNonComposite(a) => "You tried to select some fields on the type "@ + a@
            + " which is not a composite type"@,
        Error::MissingTypeCondition => "An inline fragment on a union or interface type must have a type condition"@,
    }
}

fn text1(a: &str) -> (r: String)
    ensures
        r@ == a@,
{
    a.to_owned()
}

fn text2(a: &str, b: &str) -> (r: String)
    ensures
        r@ == a@ + b@,
{
    let mut r = String::new();
    r.append(a);
    r.append(b);
    r
}

fn text4(a: &str, b: &str, c: &str, d: &str) -> (r: String)
    ensures
        r@ == a@ + b@ + c@ + d@,
{
    let mut r = String::new();
    r.append(a);
    r.append(b);
    r.append(c);
    r.append(d);
    r
}

fn text3(a: &str, b: &str, c: &str) -> (r: String)
    ensures
        r@ == a@ + b@ + c@,
{
    let mut r = String::new();
    r.append(a);
    r.append(b);
    r.append(c);
    r
}

fn text5(a: &str, b: &str, c: &str, d: &str, e: &str) -> (r: String)
    ensures
        r@ == a@ + b@ + c@ + d@ + e@,
{
    let mut r = String::new();
    r.append(a);
    r.append(b);
    r.append(c);
    r.append(d);
    r.append(e);
    r
}

impl Error {
    /// The message that describes the error.
    pub fn message(&self) -> (r: String)
        ensures
            r@ == error_message(*self),
    {
        match self {
            Error::UnsupportedQueryDocument(a) => text2("Query document not supported: ", a.as_str()),
            Error::QueryParseError(a) => text2("could not parse query document: ", a.as_str()),
            Error::SchemaParseError(a) => text2("could not parse schema document: ", a.as_str()),
            Error::UnknownField(a, b) => text5("could not find field `", a.as_str(), "` on `", b.as_str(), "`"),
            Error::UnknownEnum(a) => text3("could not find enum `", a.as_str(), "`"),
            Error::UnknownType(a) => text3("could not find type `", a.as_str(), "`"),
            Error::UnknownDirective(a) => text3("could not find directive `", a.as_str(), "`"),
            Error::ExpectedObject(a) => text3("expected type `", a.as_str(), "` to be an object"),
            Error::ExpectedObjectOrInterface(a) => text3(
                "expected type `",
                a.as_str(),
                "` to be an object or an interface",
            ),
            Error::ExpectedInputObject(a) => text3("expected type `", a.as_str(), "` to be an input object"),
            Error::ArgumentNotInputObject => text1("found a literal object but the argument is not an InputObject"),
            Error::UnknownArgument(a) => text3("couldn't find an argument named `", a.as_str(), "`"),
            Error::ArgumentNotEnum => text1("an enum-like value was provided to an argument that is not an enum"),
            Error::ExpectedInputType => text1("expected an input object, enum or scalar"),
            Error::ExpectedOutputType => text1("expected an enum, scalar, object, union or interface"),
            Error::ExpectedInterfaceType => text1("expected an interface"),
            Error::ExpectedHomogenousList => text1("expected a homogeneous list of input values"),
            Error::ExpectedListType => text1("expected field to be a list"),
            Error::ExpectedInputObjectValue => text1("expected a value that is or contains an input object"),
            Error::UnknownFragment(a) => text2("couldn't find a fragment named ", a.as_str()),
            Error::TypeConditionFailed(a, b) => text5(
                "Tried to apply a fragment for a ",
                a.as_str(),
                " type on a ",
                b.as_str(),
                " type",
            ),
            Error::TypeNotUnionMember(a, b) => text4(a.as_str(), " is not a member of the ", b.as_str(), " union type"),
            Error::TypeDoesNotImplementInterface(a, b) => text4(a.as_str(), " does not implement the ", b.as_str(), " interface"),
            Error::CouldntFindRootType(a) => text3(
                "Could not find a type named ",
                a.as_str(),
                ", which we expected to be the root type",
            ),
            Error::NoFieldSelected(a) => text3("At least one field should be selected for `", a.as_str(), "`."),
            Error::TriedToSelectFieldsOfNonComposite(a) => text3(
                "You tried to select some fields on the type ",
                a.as_str(),
                " which is not a composite type",
            ),
            Error::MissingTypeCondition => text1("An inline fragment on a union or interface type must have a type condition"),
        }
    }
}

/// A schema document that could not be read, with the reason.
pub struct SchemaParseError(pub String);

impl SchemaParseError {
    /// The reason, as it is.
    pub fn message(&self) -> (r: String)
        ensures
            r@ == self.0@,
    {
        self.0.clone()
    }
}

/// A schema coordinate that an override cannot be set for.
pub enum InvalidSchemaCoordinate {
    /// The text is not a schema coordinate.
    ParseError(CoordinateSyntaxError),
    /// The coordinate does not name a field.
    UnsupportedCoordinate(SchemaCoordinate),
}

impl InvalidSchemaCoordinate {
    /// The message that describes the error.
    pub fn message(&self) -> (r: String)
        ensures
            r@ == match *self {
                InvalidSchemaCoordinate::ParseError(e) => "could not parse schema coordinate `"@ + e.text@ + "`"@,
                InvalidSchemaCoordinate::UnsupportedCoordinate(c) => "Unsupported schema coordinate: "@
                    + coordinate_text(c.view()),
            },
    {
        match self {
            InvalidSchemaCoordinate::ParseError(e) => text3(
                "could not parse schema coordinate `",
                e.text.as_str(),
                "`",
            ),
            InvalidSchemaCoordinate::UnsupportedCoordinate(c) => {
                let t = c.to_string();
                text2("Unsupported schema coordinate: ", t.as_str())
            },
        }
    }
}

/// Options of the older entry point.
pub struct QueryGenOptions {
    pub schema_module_name: String,
    /// The name of a registered schema to use inside generated `#[cynic(schema = "schema_name")]` attributes.
    pub schema_name: Option<String>,
}

impl Default for QueryGenOptions {
    fn default() -> (r: QueryGenOptions)
        ensures
            r.schema_module_name@ == "schema"@,
            r.schema_name is None,
    {
        QueryGenOptions { schema_module_name: "schema".to_owned(), schema_name: None }
    }
}

/// What `set_override` does with a coordinate: for a field, the type and
/// field it names; `None` when it is not a field's coordinate.
pub open spec fn member_of(c: Option<CoordinateView>) -> Option<(Seq<char>, Seq<char>)> {
    match c {
        Some(CoordinateView::Member(t, f)) => Some((t, f)),
        _ => None,
    }
}

/// The overrides after setting the first `n` of `items` in order, each a
/// coordinate text and a Rust type, when all of those are field coordinates.
pub open spec fn overrides_after(
    m: Map<(Seq<char>, Seq<char>), Seq<char>>,
    items: Seq<(Seq<char>, Seq<char>)>,
    n: nat,
) -> Map<(Seq<char>, Seq<char>), Seq<char>>
    decreases n,
{
    if n == 0 || n > items.len() {
        m
    } else {
        let prev = overrides_after(m, items, (n - 1) as nat);
        match member_of(parse_coordinate(items[n - 1].0)) {
            Some(k) => prev.insert(k, items[n - 1].1),
            None => prev,
        }
    }
}

/// The scalar types after setting the first `n` of `items` in order.
pub open spec fn scalar_types_after(
    m: Map<Seq<char>, Seq<char>>,
    items: Seq<(Seq<char>, Seq<char>)>,
    n: nat,
) -> Map<Seq<char>, Seq<char>>
    decreases n,
{
    if n == 0 || n > items.len() {
        m
    } else {
        scalar_types_after(m, items, (n - 1) as nat).insert(items[n - 1].0, items[n - 1].1)
    }
}

proof fn lemma_overrides_after_step(
    m: Map<(Seq<char>, Seq<char>), Seq<char>>,
    items: Seq<(Seq<char>, Seq<char>)>,
    n: nat,
)
    requires
        n < items.len(),
    ensures
        overrides_after(m, items, n + 1) == match member_of(parse_coordinate(items[n as int].0)) {
            Some(k) => overrides_after(m, items, n).insert(k, items[n as int].1),
            None => overrides_after(m, items, n),
        },
{
}

proof fn lemma_scalar_types_after_step(m: Map<Seq<char>, Seq<char>>, items: Seq<(Seq<char>, Seq<char>)>, n: nat)
    requires
        n < items.len(),
    ensures
        scalar_types_after(m, items, n + 1) == scalar_types_after(m, items, n).insert(
            items[n as int].0,
            items[n as int].1,
        ),
{
}

/// The views of pairs of strings.
pub open spec fn pairs_view(items: Seq<(String, String)>) -> Seq<(Seq<char>, Seq<char>)> {
    items.map_values(|p: (String, String)| (p.0@, p.1@))
}

/// What goes wrong with a coordinate text that is not a field's coordinate.
pub open spec fn coordinate_error(text: Seq<char>, e: InvalidSchemaCoordinate) -> bool {
    match parse_coordinate(text) {
        None => e matches InvalidSchemaCoordinate::ParseError(p) && p.text@ == text,
        Some(c) => e matches InvalidSchemaCoordinate::UnsupportedCoordinate(u) && u.view() == c,
    }
}

/// Turns GraphQL queries against one schema into Rust code, with options:
/// the name of the registered schema, Rust types for chosen fields, and
/// Rust types for chosen scalars.
pub struct Generator {
    schema_name: Option<String>,
    schema: Schema,
    overrides: OverrideMap,
    scalar_types: ScalarTypeMap,
}

impl Generator {
    /// The name of the registered schema, if one is set.
    pub closed spec fn spec_schema_name(&self) -> Option<Seq<char>> {
        match self.schema_name {
            Some(n) => Some(n@),
            None => None,
        }
    }

    /// The schema queries are read against.
    pub closed spec fn spec_schema(&self) -> Schema {
        self.schema
    }

    /// The Rust types set for fields, by type and field name.
    pub closed spec fn overrides(&self) -> Map<(Seq<char>, Seq<char>), Seq<char>> {
        self.overrides.view()
    }

    /// The Rust types set for scalars, by scalar name.
    pub closed spec fn scalar_types(&self) -> Map<Seq<char>, Seq<char>> {
        self.scalar_types.view()
    }

    pub closed spec fn wf(&self) -> bool {
        self.overrides.wf() && self.scalar_types.wf()
    }

    /// A generator for `schema` with no options set.
    pub fn new(schema: Schema) -> (r: Generator)
        ensures
            r.wf(),
            r.spec_schema() == schema,
            r.spec_schema_name() is None,
            r.overrides() == Map::<(Seq<char>, Seq<char>), Seq<char>>::empty(),
            r.scalar_types() == Map::<Seq<char>, Seq<char>>::empty(),
    {
        Generator {
            schema_name: None,
            schema,
            overrides: OverrideMap::new(),
            scalar_types: ScalarTypeMap::new(),
        }
    }

    /// The name of the registered schema, if one is set.
    pub fn schema_name(&self) -> (r: Option<&str>)
        ensures
            match r {
                Some(n) => self.spec_schema_name() == Some(n@),
                None => self.spec_schema_name() is None,
            },
    {
        match &self.schema_name {
            Some(n) => Some(n.as_str()),
            None => None,
        }
    }

    /// The schema queries are read against.
    pub fn schema(&self) -> (r: &Schema)
        ensures
            *r == self.spec_schema(),
    {
        &self.schema
    }

    /// Provides the name of a registered schema to use inside generated `#[cynic(schema = "schema_name")]` attributes.
    pub fn with_schema_name(self, schema_name: String) -> (r: Generator)
        ensures
            r.spec_schema_name() == Some(schema_name@),
            r.spec_schema() == self.spec_schema(),
            r.overrides() == self.overrides(),
            r.scalar_types() == self.scalar_types(),
            r.wf() == self.wf(),
    {
        let mut this = self;
        this.set_schema_name(schema_name);
        this
    }

    /// Provides the name of a registered schema to use inside generated `#[cynic(schema = "schema_name")]` attributes.
    pub fn set_schema_name(&mut self, schema_name: String)
        ensures
            final(self).spec_schema_name() == Some(schema_name@),
            final(self).spec_schema() == old(self).spec_schema(),
            final(self).overrides() == old(self).overrides(),
            final(self).scalar_types() == old(self).scalar_types(),
            final(self).wf() == old(self).wf(),
    {
        self.schema_name = Some(schema_name);
    }

    /// The Rust type set for the field `field` of the type `ty`, if any.
    pub fn override_for(&self, ty: &str, field: &str) -> (r: Option<&str>)
        requires
            self.wf(),
        ensures
            r is Some <==> self.overrides().contains_key((ty@, field@)),
            r matches Some(t) ==> t@ == self.overrides()[(ty@, field@)],
    {
        self.overrides.get(ty, field)
    }

    /// The Rust type set for the scalar `name`, if any.
    pub fn scalar_type(&self, name: &str) -> (r: Option<&str>)
        requires
            self.wf(),
        ensures
            r is Some <==> self.scalar_types().contains_key(name@),
            r matches Some(t) ==> t@ == self.scalar_types()[name@],
    {
        self.scalar_types.get(name)
    }

    /// Sets the Rust type for the field that `coordinate` names: a member
    /// coordinate `Type.field`, with the field's name as the schema writes
    /// it. Text that is not a schema coordinate, and a coordinate of any
    /// other kind, is refused and changes nothing.
    pub fn set_override(&mut self, coordinate: &str, replacement: String) -> (r: Result<
        (),
        InvalidSchemaCoordinate,
    >)
        requires
            old(self).wf(),
        ensures
            final(self).wf(),
            final(self).spec_schema() == old(self).spec_schema(),
            final(self).spec_schema_name() == old(self).spec_schema_name(),
            final(self).scalar_types() == old(self).scalar_types(),
            r is Ok <==> member_of(parse_coordinate(coordinate@)) is Some,
            match member_of(parse_coordinate(coordinate@)) {
                Some(k) => final(self).overrides() == old(self).overrides().insert(k, replacement@),
                None => final(self).overrides() == old(self).overrides(),
            },
            r matches Err(e) ==> coordinate_error(coordinate@, e),
    {
        let parsed = match parse_schema_coordinate(coordinate) {
            Ok(c) => c,
            Err(e) => {
                return Err(InvalidSchemaCoordinate::ParseError(e));
            },
        };
        match parsed {
            SchemaCoordinate::Member { ty, field } => {
                self.overrides.insert(ty, field, replacement);
                Ok(())
            },
            other => Err(InvalidSchemaCoordinate::UnsupportedCoordinate(other)),
        }
    }

    /// Sets an override as `set_override` does, and hands the generator back.
    pub fn with_override(self, coordinate: &str, replacement: String) -> (r: Result<
        Generator,
        InvalidSchemaCoordinate,
    >)
        requires
            self.wf(),
        ensures
            r is Ok <==> member_of(parse_coordinate(coordinate@)) is Some,
            r matches Ok(g) ==> {
                &&& g.wf()
                &&& g.spec_schema() == self.spec_schema()
                &&& g.spec_schema_name() == self.spec_schema_name()
                &&& g.scalar_types() == self.scalar_types()
                &&& g.overrides() == self.overrides().insert(
                    member_of(parse_coordinate(coordinate@))->0,
                    replacement@,
                )
            },
            r matches Err(e) ==> coordinate_error(coordinate@, e),
    {
        let mut this = self;
        match this.set_override(coordinate, replacement) {
            Ok(()) => Ok(this),
            Err(e) => Err(e),
        }
    }

    /// Sets overrides in order, as `set_override` does, stopping at the
    /// first coordinate that is refused; the ones before it stay set.
    pub fn set_overrides(&mut self, items: Vec<(String, String)>) -> (r: Result<(), InvalidSchemaCoordinate>)
        requires
            old(self).wf(),
        ensures
            final(self).wf(),
            final(self).spec_schema() == old(self).spec_schema(),
            final(self).spec_schema_name() == old(self).spec_schema_name(),
            final(self).scalar_types() == old(self).scalar_types(),
            r is Ok <==> forall|i: int|
                0 <= i < items@.len() ==> member_of(parse_coordinate((#[trigger] items@[i]).0@)) is Some,
            r is Ok ==> final(self).overrides() == overrides_after(
                old(self).overrides(),
                pairs_view(items@),
                items@.len(),
            ),
            r matches Err(e) ==> exists|k: int|
                0 <= k < items@.len() && member_of(parse_coordinate((#[trigger] items@[k]).0@)) is None
                    && (forall|i: int|
                    0 <= i < k ==> member_of(parse_coordinate((#[trigger] items@[i]).0@)) is Some)
                    && coordinate_error(items@[k].0@, e) && final(self).overrides() == overrides_after(
                    old(self).overrides(),
                    pairs_view(items@),
                    k as nat,
                ),
    {
        let ghost start = self.overrides();
        let ghost pv = pairs_view(items@);
        let ghost all = items@;
        let mut i: usize = 0;
        let n = items.len();
        while i < n
            invariant
                self.wf(),
                self.spec_schema() == old(self).spec_schema(),
                self.spec_schema_name() == old(self).spec_schema_name(),
                self.scalar_types() == old(self).scalar_types(),
                all == items@,
                pv == pairs_view(all),
                n == all.len(),
                i <= n,
                forall|j: int| 0 <= j < i ==> member_of(parse_coordinate((#[trigger] all[j]).0@)) is Some,
                self.overrides() == overrides_after(start, pv, i as nat),
                start == old(self).overrides(),
            decreases n - i,
        {
            let coordinate = items[i].0.as_str();
            let replacement = items[i].1.clone();
            assert(pv[i as int] == (all[i as int].0@, all[i as int].1@));
            proof {
                lemma_overrides_after_step(start, pv, i as nat);
            }
            match self.set_override(coordinate, replacement) {
                Ok(()) => {},
                Err(e) => {
                    proof {
                        assert(items@[i as int].0@ == coordinate@);
                        assert(member_of(parse_coordinate(items@[i as int].0@)) is None);
                        assert(coordinate_error(items@[i as int].0@, e));
                        assert(overrides_after(start, pv, i as nat) == self.overrides());
                        assert(forall|j: int| 0 <= j < i ==> member_of(parse_coordinate((#[trigger] items@[j]).0@)) is Some);
                        let k = i as int;
                        assert(0 <= k < items@.len() && member_of(parse_coordinate((items@[k]).0@)) is None
                            && (forall|j: int|
                            0 <= j < k ==> member_of(parse_coordinate((#[trigger] items@[j]).0@)) is Some)
                            && coordinate_error(items@[k].0@, e) && self.overrides() == overrides_after(
                            old(self).overrides(),
                            pairs_view(items@),
                            k as nat,
                        ));
                    }
                    return Err(e);
                },
            }
            i = i + 1;
        }
        Ok(())
    }

    /// Sets overrides as `set_overrides` does, and hands the generator back.
    pub fn with_overrides(self, items: Vec<(String, String)>) -> (r: Result<Generator, InvalidSchemaCoordinate>)
        requires
            self.wf(),
        ensures
            r is Ok <==> forall|i: int|
                0 <= i < items@.len() ==> member_of(parse_coordinate((#[trigger] items@[i]).0@)) is Some,
            r matches Ok(g) ==> {
                &&& g.wf()
                &&& g.spec_schema() == self.spec_schema()
                &&& g.spec_schema_name() == self.spec_schema_name()
                &&& g.scalar_types() == self.scalar_types()
                &&& g.overrides() == overrides_after(self.overrides(), pairs_view(items@), items@.len())
            },
            r matches Err(e) ==> exists|k: int|
                0 <= k < items@.len() && member_of(parse_coordinate((#[trigger] items@[k]).0@)) is None
                    && coordinate_error(items@[k].0@, e),
    {
        let mut this = self;
        match this.set_overrides(items) {
            Ok(()) => Ok(this),
            Err(e) => Err(e),
        }
    }

    /// Sets the Rust type used for every occurrence of the GraphQL scalar
    /// `scalar_name`, in place of any set before.
    pub fn set_scalar_type(&mut self, scalar_name: String, rust_type: String)
        requires
            old(self).wf(),
        ensures
            final(self).wf(),
            final(self).spec_schema() == old(self).spec_schema(),
            final(self).spec_schema_name() == old(self).spec_schema_name(),
            final(self).overrides() == old(self).overrides(),
            final(self).scalar_types() == old(self).scalar_types().insert(scalar_name@, rust_type@),
    {
        self.scalar_types.insert(scalar_name, rust_type);
    }

    /// Sets a scalar type as `set_scalar_type` does, and hands the generator back.
    pub fn with_scalar_type(self, scalar_name: String, rust_type: String) -> (r: Generator)
        requires
            self.wf(),
        ensures
            r.wf(),
            r.spec_schema() == self.spec_schema(),
            r.spec_schema_name() == self.spec_schema_name(),
            r.overrides() == self.overrides(),
            r.scalar_types() == self.scalar_types().insert(scalar_name@, rust_type@),
    {
        let mut this = self;
        this.set_scalar_type(scalar_name, rust_type);
        this
    }

    /// Sets scalar types in order, as `set_scalar_type` does.
    pub fn set_scalar_types(&mut self, items: Vec<(String, String)>)
        requires
            old(self).wf(),
        ensures
            final(self).wf(),
            final(self).spec_schema() == old(self).spec_schema(),
            final(self).spec_schema_name() == old(self).spec_schema_name(),
            final(self).overrides() == old(self).overrides(),
            final(self).scalar_types() == scalar_types_after(
                old(self).scalar_types(),
                pairs_view(items@),
                items@.len(),
            ),
    {
        let ghost start = self.scalar_types();
        let ghost pv = pairs_view(items@);
        let ghost all = items@;
        let mut i: usize = 0;
        let n = items.len();
        while i < n
            invariant
                self.wf(),
                self.spec_schema() == old(self).spec_schema(),
                self.spec_schema_name() == old(self).spec_schema_name(),
                self.overrides() == old(self).overrides(),
                all == items@,
                pv == pairs_view(all),
                n == all.len(),
                i <= n,
                self.scalar_types() == scalar_types_after(start, pv, i as nat),
                start == old(self).scalar_types(),
            decreases n - i,
        {
            let name = items[i].0.clone();
            let rust_type = items[i].1.clone();
            assert(pv[i as int] == (all[i as int].0@, all[i as int].1@));
            proof {
                lemma_scalar_types_after_step(start, pv, i as nat);
            }
            self.set_scalar_type(name, rust_type);
            i = i + 1;
        }
    }

    /// Sets scalar types as `set_scalar_types` does, and hands the generator back.
    pub fn with_scalar_types(self, items: Vec<(String, String)>) -> (r: Generator)
        requires
            self.wf(),
        ensures
            r.wf(),
            r.spec_schema() == self.spec_schema(),
            r.spec_schema_name() == self.spec_schema_name(),
            r.overrides() == self.overrides(),
            r.scalar_types() == scalar_types_after(self.scalar_types(), pairs_view(items@), items@.len()),
    {
        let mut this = self;
        this.set_scalar_types(items);
        this
    }
}

/// An override set for a field is the one read back for that field: when
/// the overrides `after` are `before` with `replacement` set for the member
/// coordinate written as `ty.field` (as `set_override` leaves them), the
/// field `ty.field` has the override `replacement`, and every other field
/// keeps the override it had, or its lack of one.
pub proof fn law_override_reads_back(
    before: Map<(Seq<char>, Seq<char>), Seq<char>>,
    after: Map<(Seq<char>, Seq<char>), Seq<char>>,
    ty: Seq<char>,
    field: Seq<char>,
    replacement: Seq<char>,
    other: (Seq<char>, Seq<char>),
)
    requires
        crate::coordinate::is_name(ty),
        crate::coordinate::is_name(field),
        after == match member_of(parse_coordinate(coordinate_text(CoordinateView::Member(ty, field)))) {
            Some(k) => before.insert(k, replacement),
            None => before,
        },
    ensures
        after.contains_key((ty, field)),
        after[(ty, field)] == replacement,
        other != (ty, field) ==> after.contains_key(other) == before.contains_key(other),
        other != (ty, field) && before.contains_key(other) ==> after[other] == before[other],
{
    let c = CoordinateView::Member(ty, field);
    crate::coordinate::law_coordinate_text_reads_back(c);
}

} // verus!
