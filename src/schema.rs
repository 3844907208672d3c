use vstd::prelude::*;
use vstd::string::StringExecFns;
use crate::parser::Type;
use crate::text::same_text;

verus! {

/// A JSON document, as the schema reader walks it. Numbers keep their text.
pub enum Json {
    Null,
    Bool(bool),
    Number(String),
    String(String),
    Array(Vec<Json>),
    Object(Vec<(String, Json)>),
}

#[derive(PartialEq, Eq, Structural, Clone, Copy, Debug)]
pub enum NamedTypeKind {
    Scalar,
    Object,
    Enum,
    InputObject,
    Interface,
}

pub struct Argument {
    pub name: String,
    pub of_type: Type,
}

pub struct Field {
    pub name: String,
    pub args: Vec<Argument>,
    pub of_type: Type,
}

pub struct NamedType {
    pub name: String,
    pub kind: NamedTypeKind,
    pub fields: Vec<Field>,
}

/// The type catalog, looked up by name. Where two entries share a name the
/// last one counts.
pub struct Schema {
    mutation_type: String,
    query_type: String,
    types: Vec<NamedType>,
}

/// Why an introspection document could not be read.
#[derive(PartialEq, Eq, Structural, Clone, Copy, Debug)]
pub enum SchemaError {
    /// A key that the reader needs is absent, or holds the wrong kind of value.
    Malformed,
    /// A `kind` that names no known type kind.
    UnknownKind,
}

// ---------------------------------------------------------------- lookups

/// Index of the last type named `name`: a later entry replaces an earlier one.
pub open spec fn find_type(ts: Seq<NamedType>, name: Seq<char>) -> Option<int>
    decreases ts.len(),
{
    if ts.len() == 0 {
        None
    } else if ts.last().name@ == name {
        Some(ts.len() - 1)
    } else {
        find_type(ts.drop_last(), name)
    }
}

/// Index of the last field named `name`: a later entry replaces an earlier one.
pub open spec fn find_field(fs: Seq<Field>, name: Seq<char>) -> Option<int>
    decreases fs.len(),
{
    if fs.len() == 0 {
        None
    } else if fs.last().name@ == name {
        Some(fs.len() - 1)
    } else {
        find_field(fs.drop_last(), name)
    }
}

/// The name at the bottom of `NonNull` and `Array` layers, where there is one.
pub open spec fn leaf_name(t: Type) -> Option<Seq<char>>
    decreases t,
{
    match t {
        Type::Input(n) => Some(n@),
        Type::NonNull(e) => leaf_name(*e),
        Type::Array(e) => leaf_name(*e),
        _ => None,
    }
}

proof fn lemma_find_type(ts: Seq<NamedType>, name: Seq<char>)
    ensures
        find_type(ts, name) matches Some(k) ==> 0 <= k < ts.len() && ts[k].name@ == name
            && forall|j: int| k < j < ts.len() ==> ts[j].name@ != name,
        find_type(ts, name) is None ==> forall|j: int| 0 <= j < ts.len() ==> ts[j].name@ != name,
    decreases ts.len(),
{
    if ts.len() > 0 {
        lemma_find_type(ts.drop_last(), name);
        assert(forall|j: int| 0 <= j < ts.len() - 1 ==> ts.drop_last()[j] == #[trigger] ts[j]);
    }
}

proof fn lemma_find_field(fs: Seq<Field>, name: Seq<char>)
    ensures
        find_field(fs, name) matches Some(k) ==> 0 <= k < fs.len() && fs[k].name@ == name
            && forall|j: int| k < j < fs.len() ==> fs[j].name@ != name,
        find_field(fs, name) is None ==> forall|j: int| 0 <= j < fs.len() ==> fs[j].name@ != name,
    decreases fs.len(),
{
    if fs.len() > 0 {
        lemma_find_field(fs.drop_last(), name);
        assert(forall|j: int| 0 <= j < fs.len() - 1 ==> fs.drop_last()[j] == #[trigger] fs[j]);
    }
}

proof fn lemma_find_type_last(ts: Seq<NamedType>, name: Seq<char>, k: int)
    requires
        0 <= k < ts.len(),
        ts[k].name@ == name,
        forall|j: int| k < j < ts.len() ==> ts[j].name@ != name,
    ensures
        find_type(ts, name) == Some(k),
    decreases ts.len(),
{
    lemma_find_type(ts, name);
    if k < ts.len() - 1 {
        lemma_find_type_last(ts.drop_last(), name, k);
    } else {
        lemma_find_type(ts.drop_last(), name);
    }
}

proof fn lemma_find_field_last(fs: Seq<Field>, name: Seq<char>, k: int)
    requires
        0 <= k < fs.len(),
        fs[k].name@ == name,
        forall|j: int| k < j < fs.len() ==> fs[j].name@ != name,
    ensures
        find_field(fs, name) == Some(k),
    decreases fs.len(),
{
    lemma_find_field(fs, name);
    if k < fs.len() - 1 {
        lemma_find_field_last(fs.drop_last(), name, k);
    } else {
        lemma_find_field(fs.drop_last(), name);
    }
}

/// A type found through a reference carries the name at the reference's leaf.
pub proof fn lemma_named_of_name(s: Schema, t: Type)
    ensures
        s.named_of(t) matches Some(nt) ==> leaf_name(t) == Some(nt.name@),
{
    if let Some(n) = leaf_name(t) {
        lemma_find_type(s.types(), n);
    }
}

impl NamedType {
    /// The field of this type named `name`.
    pub fn field(&self, name: &str) -> (r: Option<&Field>)
        ensures
            match find_field(self.fields@, name@) {
                Some(k) => r == Some(&self.fields@[k]),
                None => r is None,
            },
    {
        let mut k: usize = self.fields.len();
        while k > 0
            invariant
                k <= self.fields.len(),
                forall|j: int| k <= j < self.fields.len() ==> self.fields@[j].name@ != name@,
            decreases k,
        {
            k -= 1;
            if same_text(self.fields[k].name.as_str(), name) {
                proof {
                    lemma_find_field_last(self.fields@, name@, k as int);
                }
                return Some(&self.fields[k]);
            }
        }
        proof {
            lemma_find_field(self.fields@, name@);
        }
        None
    }
}

impl Schema {
    pub closed spec fn types(&self) -> Seq<NamedType> {
        self.types@
    }

    pub closed spec fn query_type(&self) -> Seq<char> {
        self.query_type@
    }

    pub closed spec fn mutation_type(&self) -> Seq<char> {
        self.mutation_type@
    }

    /// The type named `name`, if the catalog has one.
    pub open spec fn lookup(&self, name: Seq<char>) -> Option<NamedType> {
        match find_type(self.types(), name) {
            Some(k) => Some(self.types()[k]),
            None => None,
        }
    }

    /// The catalog entry that a type refers to, through its `NonNull` and
    /// `Array` layers.
    pub open spec fn named_of(&self, t: Type) -> Option<NamedType> {
        match leaf_name(t) {
            Some(n) => self.lookup(n),
            None => None,
        }
    }

    pub fn get(&self, name: &str) -> (r: Option<&NamedType>)
        ensures
            r == match self.lookup(name@) {
                Some(t) => Some(&t),
                None => None::<&NamedType>,
            },
    {
        let mut k: usize = self.types.len();
        while k > 0
            invariant
                k <= self.types.len(),
                forall|j: int| k <= j < self.types.len() ==> self.types@[j].name@ != name@,
            decreases k,
        {
            k -= 1;
            if same_text(self.types[k].name.as_str(), name) {
                proof {
                    lemma_find_type_last(self.types@, name@, k as int);
                }
                return Some(&self.types[k]);
            }
        }
        proof {
            lemma_find_type(self.types@, name@);
        }
        None
    }

    /// The named type at the bottom of `object_type`; `None` where that is a
    /// built-in scalar or a name the catalog lacks.
    pub fn get_named(&self, object_type: &Type) -> (r: Option<&NamedType>)
        ensures
            r == match self.named_of(*object_type) {
                Some(t) => Some(&t),
                None => None::<&NamedType>,
            },
        decreases object_type,
    {
        match object_type {
            Type::Input(name) => self.get(name.as_str()),
            Type::Array(elem) => self.get_named(elem),
            Type::NonNull(elem) => self.get_named(elem),
            _ => None,
        }
    }

    /// The named type of the field `name` of `object_type`.
    pub fn get_type_of_field(&self, object_type: &NamedType, name: &str) -> (r: Option<
        &NamedType,
    >)
        ensures
            r == match find_field(object_type.fields@, name@) {
                Some(k) => match self.named_of(object_type.fields@[k].of_type) {
                    Some(t) => Some(&t),
                    None => None::<&NamedType>,
                },
                None => None::<&NamedType>,
            },
    {
        match object_type.field(name) {
            Some(f) => self.get_named(&f.of_type),
            None => None,
        }
    }

    pub fn query_root(&self) -> (r: Option<&NamedType>)
        ensures
            r == match self.lookup(self.query_type()) {
                Some(t) => Some(&t),
                None => None::<&NamedType>,
            },
    {
        self.get(self.query_type.as_str())
    }

    pub fn mutation_root(&self) -> (r: Option<&NamedType>)
        ensures
            r == match self.lookup(self.mutation_type()) {
                Some(t) => Some(&t),
                None => None::<&NamedType>,
            },
    {
        self.get(self.mutation_type.as_str())
    }

    /// A schema from its parts.
    pub fn new(query_type: String, mutation_type: String, types: Vec<NamedType>) -> (s: Schema)
        ensures
            s.query_type() == query_type@,
            s.mutation_type() == mutation_type@,
            s.types() == types@,
    {
        Schema { query_type, mutation_type, types }
    }
}

// ---------------------------------------------------------------- reading JSON

/// The value of the first member of an object named `key`.
pub open spec fn member_of(ms: Seq<(String, Json)>, key: Seq<char>) -> Option<Json>
    decreases ms.len(),
{
    if ms.len() == 0 {
        None
    } else if ms[0].0@ == key {
        Some(ms[0].1)
    } else {
        member_of(ms.drop_first(), key)
    }
}

/// The value at `key` of a JSON object; `None` for a missing key or a non-object.
pub open spec fn member(j: Json, key: Seq<char>) -> Option<Json> {
    match j {
        Json::Object(ms) => member_of(ms@, key),
        _ => None,
    }
}

/// The string at `key` of a JSON object.
pub open spec fn member_str(j: Json, key: Seq<char>) -> Option<Seq<char>> {
    match member(j, key) {
        Some(Json::String(s)) => Some(s@),
        _ => None,
    }
}

/// `t` is what an introspection type reference `j` describes: `SCALAR` gives a
/// built-in by name or a named reference, `NON_NULL` and `LIST` wrap what
/// their `ofType` object describes, and the other kinds name a type.
pub open spec fn type_json(t: Type, j: Json) -> bool
    decreases t,
{
    let kind = member_str(j, "kind"@);
    let name = member_str(j, "name"@);
    let inner = member(j, "ofType"@);
    if kind == Some("SCALAR"@) {
        name is Some && if name == Some("Int"@) {
            t is Int
        } else if name == Some("Float"@) {
            t is Float
        } else if name == Some("Bool"@) {
            t is Bool
        } else if name == Some("String"@) {
            t is String
        } else {
            t matches Type::Input(n) && Some(n@) == name
        }
    } else if kind == Some("NON_NULL"@) || kind == Some("LIST"@) {
        &&& inner matches Some(o)
        &&& o is Object
        &&& if kind == Some("NON_NULL"@) {
            t matches Type::NonNull(e) && type_json(*e, o)
        } else {
            t matches Type::Array(e) && type_json(*e, o)
        }
    } else if kind == Some("ENUM"@) || kind == Some("OBJECT"@) || kind == Some("INTERFACE"@)
        || kind == Some("INPUT_OBJECT"@) {
        t matches Type::Input(n) && Some(n@) == name
    } else {
        false
    }
}

/// The kind that an introspection `kind` string names.
pub open spec fn kind_of(k: Seq<char>) -> Option<NamedTypeKind> {
    if k == "OBJECT"@ {
        Some(NamedTypeKind::Object)
    } else if k == "INTERFACE"@ {
        Some(NamedTypeKind::Interface)
    } else if k == "SCALAR"@ {
        Some(NamedTypeKind::Scalar)
    } else if k == "INPUT_OBJECT"@ {
        Some(NamedTypeKind::InputObject)
    } else if k == "ENUM"@ {
        Some(NamedTypeKind::Enum)
    } else {
        None
    }
}

/// The value at `key` of an object, if any.
#[verifier::loop_isolation(false)]
fn get<'b>(j: &'b Json, key: &str) -> (r: Option<&'b Json>)
    ensures
        r == match member(*j, key@) {
            Some(v) => Some(&v),
            None => None::<&Json>,
        },
        r matches Some(v) ==> decreases_to!(*j => *v),
{
    match j {
        Json::Object(ms) => {
            let mut k: usize = 0;
            assert(ms@.subrange(0, ms@.len() as int) =~= ms@);
            while k < ms.len()
                invariant
                    k <= ms.len(),
                    member_of(ms@, key@) == member_of(ms@.subrange(k as int, ms@.len() as int), key@),
                decreases ms.len() - k,
            {
                let ghost rest = ms@.subrange(k as int, ms@.len() as int);
                assert(rest.drop_first() =~= ms@.subrange(k + 1, ms@.len() as int));
                assert(rest[0] == ms@[k as int]);
                if same_text(ms[k].0.as_str(), key) {
                    proof {
                        assert(decreases_to!(ms => ms[k as int]));
                        assert(decreases_to!(ms[k as int] => ms[k as int].1));
                    }
                    return Some(&ms[k].1);
                }
                k += 1;
            }
            assert(ms@.subrange(k as int, ms@.len() as int) =~= Seq::<(String, Json)>::empty());
            None
        },
        _ => None,
    }
}

/// The string at `key` of an object, if any.
fn get_str<'b>(j: &'b Json, key: &str) -> (r: Option<&'b String>)
    ensures
        match member_str(*j, key@) {
            Some(s) => r matches Some(x) && x@ == s,
            None => r is None,
        },
{
    match get(j, key) {
        Some(Json::String(s)) => Some(s),
        _ => None,
    }
}

fn is_text(s: &String, t: &str) -> (r: bool)
    ensures
        r == (s@ == t@),
{
    same_text(s.as_str(), t)
}

/// The words that the reader tells apart are different words.
proof fn lemma_words_distinct()
    ensures
        "SCALAR"@ != "NON_NULL"@,
        "SCALAR"@ != "LIST"@,
        "SCALAR"@ != "ENUM"@,
        "SCALAR"@ != "OBJECT"@,
        "SCALAR"@ != "INTERFACE"@,
        "SCALAR"@ != "INPUT_OBJECT"@,
        "NON_NULL"@ != "LIST"@,
        "NON_NULL"@ != "ENUM"@,
        "NON_NULL"@ != "OBJECT"@,
        "NON_NULL"@ != "INTERFACE"@,
        "NON_NULL"@ != "INPUT_OBJECT"@,
        "LIST"@ != "ENUM"@,
        "LIST"@ != "OBJECT"@,
        "LIST"@ != "INTERFACE"@,
        "LIST"@ != "INPUT_OBJECT"@,
        "ENUM"@ != "OBJECT"@,
        "ENUM"@ != "INTERFACE"@,
        "ENUM"@ != "INPUT_OBJECT"@,
        "OBJECT"@ != "INTERFACE"@,
        "OBJECT"@ != "INPUT_OBJECT"@,
        "INTERFACE"@ != "INPUT_OBJECT"@,
        "Int"@ != "Float"@,
        "Int"@ != "Bool"@,
        "Int"@ != "String"@,
        "Float"@ != "Bool"@,
        "Float"@ != "String"@,
        "Bool"@ != "String"@,
{
    reveal_strlit("SCALAR");
    reveal_strlit("NON_NULL");
    reveal_strlit("LIST");
    reveal_strlit("ENUM");
    reveal_strlit("OBJECT");
    reveal_strlit("INTERFACE");
    reveal_strlit("INPUT_OBJECT");
    reveal_strlit("Int");
    reveal_strlit("Float");
    reveal_strlit("Bool");
    reveal_strlit("String");
    assert("SCALAR"@.len() != "NON_NULL"@.len());
    assert("SCALAR"@.len() != "LIST"@.len());
    assert("SCALAR"@.len() != "ENUM"@.len());
    assert("SCALAR"@[0] != "OBJECT"@[0]);
    assert("SCALAR"@.len() != "INTERFACE"@.len());
    assert("SCALAR"@.len() != "INPUT_OBJECT"@.len());
    assert("NON_NULL"@.len() != "LIST"@.len());
    assert("NON_NULL"@.len() != "ENUM"@.len());
    assert("NON_NULL"@.len() != "OBJECT"@.len());
    assert("NON_NULL"@.len() != "INTERFACE"@.len());
    assert("NON_NULL"@.len() != "INPUT_OBJECT"@.len());
    assert("LIST"@[0] != "ENUM"@[0]);
    assert("LIST"@.len() != "OBJECT"@.len());
    assert("LIST"@.len() != "INTERFACE"@.len());
    assert("LIST"@.len() != "INPUT_OBJECT"@.len());
    assert("ENUM"@.len() != "OBJECT"@.len());
    assert("ENUM"@.len() != "INTERFACE"@.len());
    assert("ENUM"@.len() != "INPUT_OBJECT"@.len());
    assert("OBJECT"@.len() != "INTERFACE"@.len());
    assert("OBJECT"@.len() != "INPUT_OBJECT"@.len());
    assert("INTERFACE"@.len() != "INPUT_OBJECT"@.len());
    assert("Int"@.len() != "Float"@.len());
    assert("Int"@.len() != "Bool"@.len());
    assert("Int"@.len() != "String"@.len());
    assert("Float"@.len() != "Bool"@.len());
    assert("Float"@.len() != "String"@.len());
    assert("Bool"@.len() != "String"@.len());
}

/// Reads an introspection type reference.
fn type_from(of_type: &Json) -> (r: Result<Type, SchemaError>)
    ensures
        r matches Ok(t) ==> type_json(t, *of_type),
        r is Err ==> forall|t: Type| !type_json(t, *of_type),
    decreases of_type,
{
    proof {
        lemma_words_distinct();
    }
    let kind = match get_str(of_type, "kind") {
        Some(k) => k,
        None => return Err(SchemaError::Malformed),
    };
    let name = get_str(of_type, "name");
    if is_text(kind, "NON_NULL") || is_text(kind, "LIST") {
        let inner = match get(of_type, "ofType") {
            Some(o) => o,
            None => {
                return Err(SchemaError::Malformed);
            },
        };
        if !matches!(inner, Json::Object(_)) {
            return Err(SchemaError::Malformed);
        }
        let e = match type_from(inner) {
            Ok(e) => e,
            Err(err) => {
                proof {
                    assert forall|t: Type| !type_json(t, *of_type) by {
                        match t {
                            Type::NonNull(e) => assert(!type_json(*e, *inner)),
                            Type::Array(e) => assert(!type_json(*e, *inner)),
                            _ => {},
                        }
                    }
                }
                return Err(err);
            },
        };
        if is_text(kind, "NON_NULL") {
            Ok(Type::NonNull(Box::new(e)))
        } else {
            Ok(Type::Array(Box::new(e)))
        }
    } else if is_text(kind, "SCALAR") {
        let name = match name {
            Some(n) => n,
            None => return Err(SchemaError::Malformed),
        };
        if is_text(name, "Int") {
            Ok(Type::Int)
        } else if is_text(name, "Float") {
            Ok(Type::Float)
        } else if is_text(name, "Bool") {
            Ok(Type::Bool)
        } else if is_text(name, "String") {
            Ok(Type::String)
        } else {
            Ok(Type::Input(name.clone()))
        }
    } else if is_text(kind, "ENUM") || is_text(kind, "OBJECT") || is_text(kind, "INTERFACE")
        || is_text(kind, "INPUT_OBJECT") {
        match name {
            Some(n) => Ok(Type::Input(n.clone())),
            None => Err(SchemaError::Malformed),
        }
    } else {
        Err(SchemaError::UnknownKind)
    }
}

pub open spec fn deref_opt(v: Option<&Json>) -> Option<Json> {
    match v {
        Some(j) => Some(*j),
        None => None,
    }
}

/// The items of a JSON array; none where the value is absent or no array.
pub open spec fn items_of(v: Option<Json>) -> Seq<Json> {
    match v {
        Some(Json::Array(items)) => items@,
        _ => seq![],
    }
}

/// `a` is what an introspection argument object `j` describes.
pub open spec fn argument_json(a: Argument, j: Json) -> bool {
    &&& j is Object
    &&& member_str(j, "name"@) == Some(a.name@)
    &&& member(j, "type"@) matches Some(t) && type_json(a.of_type, t)
}

/// `f` is what an introspection field object `j` describes.
pub open spec fn field_json(f: Field, j: Json) -> bool {
    &&& j is Object
    &&& member_str(j, "name"@) == Some(f.name@)
    &&& member(j, "type"@) matches Some(t) && type_json(f.of_type, t)
    &&& f.args@.len() == items_of(member(j, "args"@)).len()
    &&& forall|k: int|
        0 <= k < f.args@.len() ==> argument_json(#[trigger] f.args@[k], items_of(member(j, "args"@))[k])
}

/// A type reference that describes some type.
pub open spec fn type_ok(j: Json) -> bool {
    exists|t: Type| type_json(t, j)
}

/// An argument object with a name and a readable type.
pub open spec fn argument_ok(j: Json) -> bool {
    &&& j is Object
    &&& member_str(j, "name"@) is Some
    &&& member(j, "type"@) matches Some(t) && type_ok(t)
}

/// A field object with a name, readable arguments and a readable type.
pub open spec fn field_ok(j: Json) -> bool {
    &&& j is Object
    &&& member_str(j, "name"@) is Some
    &&& forall|k: int|
        0 <= k < items_of(member(j, "args"@)).len() ==> argument_ok(
            #[trigger] items_of(member(j, "args"@))[k],
        )
    &&& member(j, "type"@) matches Some(t) && type_ok(t)
}

/// A type object with a name, a known kind and readable fields.
pub open spec fn named_type_ok(j: Json) -> bool {
    &&& j is Object
    &&& member_str(j, "name"@) is Some
    &&& member_str(j, "kind"@) matches Some(k) && kind_of(k) is Some
    &&& forall|k: int|
        0 <= k < items_of(member(j, "fields"@)).len() ==> field_ok(
            #[trigger] items_of(member(j, "fields"@))[k],
        )
}

/// An introspection response that the reader accepts: a `__schema` object
/// (under `data` where there is a `data` object) with named `queryType` and
/// `mutationType` objects and an array of readable `types`.
pub open spec fn schema_ok(j: Json) -> bool {
    &&& schema_object(j) matches Some(o)
    &&& member(o, "queryType"@) matches Some(q) && q is Object && member_str(q, "name"@) is Some
    &&& member(o, "mutationType"@) matches Some(m) && m is Object && member_str(m, "name"@) is Some
    &&& member(o, "types"@) matches Some(Json::Array(ts)) && forall|k: int|
        0 <= k < ts@.len() ==> named_type_ok(#[trigger] ts@[k])
}

/// Reads the `args` array of a field; no array means no arguments.
fn args_from(args: Option<&Json>) -> (r: Result<Vec<Argument>, SchemaError>)
    ensures
        r matches Ok(a) ==> a@.len() == items_of(deref_opt(args)).len() && forall|k: int|
            0 <= k < a@.len() ==> argument_json(#[trigger] a@[k], items_of(deref_opt(args))[k]),
        r is Ok <==> forall|k: int|
            0 <= k < items_of(deref_opt(args)).len() ==> argument_ok(#[trigger] items_of(deref_opt(args))[k]),
{
    let ghost items_spec = items_of(deref_opt(args));
    let items = match args {
        Some(Json::Array(items)) => items,
        _ => return Ok(Vec::new()),
    };
    assert(items@ == items_spec);
    let mut result: Vec<Argument> = Vec::new();
    let mut k: usize = 0;
    while k < items.len()
        invariant
            k <= items.len(),
            items@ == items_spec,
            items_spec == items_of(deref_opt(args)),
            result@.len() == k,
            forall|i: int| 0 <= i < k ==> argument_json(#[trigger] result@[i], items@[i]),
            forall|i: int| 0 <= i < k ==> argument_ok(#[trigger] items@[i]),
        decreases items.len() - k,
    {
        let arg = &items[k];
        if !matches!(arg, Json::Object(_)) {
            assert(!argument_ok(items@[k as int]));
            return Err(SchemaError::Malformed);
        }
        let name = match get_str(arg, "name") {
            Some(n) => n.clone(),
            None => {
                assert(!argument_ok(items@[k as int]));
                return Err(SchemaError::Malformed);
            },
        };
        let of_type = match get(arg, "type") {
            Some(t) => match type_from(t) {
                Ok(ty) => ty,
                Err(e) => {
                    assert(!argument_ok(items@[k as int]));
                    return Err(e);
                },
            },
            None => {
                assert(!argument_ok(items@[k as int]));
                return Err(SchemaError::Malformed);
            },
        };
        assert(argument_ok(items@[k as int]));
        result.push(Argument { name, of_type });
        k += 1;
    }
    Ok(result)
}

/// Reads the `fields` array of a type; no array means no fields.
fn fields_from(fields: Option<&Json>) -> (r: Result<Vec<Field>, SchemaError>)
    ensures
        r matches Ok(a) ==> a@.len() == items_of(deref_opt(fields)).len() && forall|k: int|
            0 <= k < a@.len() ==> field_json(#[trigger] a@[k], items_of(deref_opt(fields))[k]),
        r is Ok <==> forall|k: int|
            0 <= k < items_of(deref_opt(fields)).len() ==> field_ok(#[trigger] items_of(deref_opt(fields))[k]),
{
    let ghost items_spec = items_of(deref_opt(fields));
    let items = match fields {
        Some(Json::Array(items)) => items,
        _ => return Ok(Vec::new()),
    };
    assert(items@ == items_spec);
    let mut result: Vec<Field> = Vec::new();
    let mut k: usize = 0;
    while k < items.len()
        invariant
            k <= items.len(),
            items@ == items_spec,
            items_spec == items_of(deref_opt(fields)),
            result@.len() == k,
            forall|i: int| 0 <= i < k ==> field_json(#[trigger] result@[i], items@[i]),
            forall|i: int| 0 <= i < k ==> field_ok(#[trigger] items@[i]),
        decreases items.len() - k,
    {
        let field = &items[k];
        if !matches!(field, Json::Object(_)) {
            assert(!field_ok(items@[k as int]));
            return Err(SchemaError::Malformed);
        }
        let name = match get_str(field, "name") {
            Some(n) => n.clone(),
            None => {
                assert(!field_ok(items@[k as int]));
                return Err(SchemaError::Malformed);
            },
        };
        let args = match args_from(get(field, "args")) {
            Ok(a) => a,
            Err(e) => {
                assert(!field_ok(items@[k as int]));
                return Err(e);
            },
        };
        let of_type = match get(field, "type") {
            Some(t) => match type_from(t) {
                Ok(ty) => ty,
                Err(e) => {
                    assert(!field_ok(items@[k as int]));
                    return Err(e);
                },
            },
            None => {
                assert(!field_ok(items@[k as int]));
                return Err(SchemaError::Malformed);
            },
        };
        assert(field_ok(items@[k as int]));
        result.push(Field { name, args, of_type });
        k += 1;
    }
    Ok(result)
}

/// `t` is what an introspection type object `j` describes.
pub open spec fn named_type_json(t: NamedType, j: Json) -> bool {
    &&& j is Object
    &&& member_str(j, "name"@) == Some(t.name@)
    &&& member_str(j, "kind"@) matches Some(k) && kind_of(k) == Some(t.kind)
    &&& t.fields@.len() == items_of(member(j, "fields"@)).len()
    &&& forall|k: int|
        0 <= k < t.fields@.len() ==> field_json(#[trigger] t.fields@[k], items_of(member(j, "fields"@))[k])
}

/// The `__schema` object of an introspection response: under `data` where
/// the response has a `data` object, else at the top.
pub open spec fn schema_object(j: Json) -> Option<Json> {
    match member(j, "data"@) {
        Some(d) => if d is Object {
            member(d, "__schema"@)
        } else {
            member(j, "__schema"@)
        },
        None => member(j, "__schema"@),
    }
}

/// `s` is what the introspection response `j` describes.
pub open spec fn schema_json(s: Schema, j: Json) -> bool {
    &&& schema_object(j) matches Some(o)
    &&& member(o, "queryType"@) matches Some(q) && q is Object && member_str(q, "name"@) == Some(s.query_type())
    &&& member(o, "mutationType"@) matches Some(m) && m is Object && member_str(m, "name"@) == Some(s.mutation_type())
    &&& member(o, "types"@) matches Some(Json::Array(ts)) && s.types().len() == ts@.len()
        && forall|k: int| 0 <= k < ts@.len() ==> named_type_json(#[trigger] s.types()[k], ts@[k])
}

fn kind_from(k: &String) -> (r: Option<NamedTypeKind>)
    ensures
        r == kind_of(k@),
{
    if is_text(k, "OBJECT") {
        Some(NamedTypeKind::Object)
    } else if is_text(k, "INTERFACE") {
        Some(NamedTypeKind::Interface)
    } else if is_text(k, "SCALAR") {
        Some(NamedTypeKind::Scalar)
    } else if is_text(k, "INPUT_OBJECT") {
        Some(NamedTypeKind::InputObject)
    } else if is_text(k, "ENUM") {
        Some(NamedTypeKind::Enum)
    } else {
        None
    }
}

fn name_of_object(j: Option<&Json>) -> (r: Result<String, SchemaError>)
    ensures
        r matches Ok(n) ==> j matches Some(o) && *o is Object && member_str(*o, "name"@) == Some(n@),
        r is Ok <==> (j matches Some(o) && *o is Object && member_str(*o, "name"@) is Some),
{
    match j {
        Some(o) => {
            if !matches!(o, Json::Object(_)) {
                return Err(SchemaError::Malformed);
            }
            match get_str(o, "name") {
                Some(n) => Ok(n.clone()),
                None => Err(SchemaError::Malformed),
            }
        },
        None => Err(SchemaError::Malformed),
    }
}

impl Schema {
    /// Builds the schema that an introspection response describes. A missing
    /// key, a value of the wrong kind or an unknown type kind fails the whole
    /// read.
    #[verifier::loop_isolation(false)]
    pub fn from_json(response: &Json) -> (r: Result<Schema, SchemaError>)
        ensures
            r matches Ok(s) ==> schema_json(s, *response),
            r is Ok <==> schema_ok(*response),
    {
        let data = match get(response, "data") {
            Some(d) => if matches!(d, Json::Object(_)) {
                d
            } else {
                response
            },
            None => response,
        };
        let json_schema = match get(data, "__schema") {
            Some(s) => s,
            None => return Err(SchemaError::Malformed),
        };
        assert(schema_object(*response) == Some(*json_schema));
        let query_type = name_of_object(get(json_schema, "queryType"))?;
        let mutation_type = name_of_object(get(json_schema, "mutationType"))?;
        let types = match get(json_schema, "types") {
            Some(Json::Array(ts)) => ts,
            _ => return Err(SchemaError::Malformed),
        };
        let mut result: Vec<NamedType> = Vec::new();
        let mut k: usize = 0;
        while k < types.len()
            invariant
                k <= types.len(),
                result@.len() == k,
                forall|i: int| 0 <= i < k ==> named_type_json(#[trigger] result@[i], types@[i]),
                forall|i: int| 0 <= i < k ==> named_type_ok(#[trigger] types@[i]),
            decreases types.len() - k,
        {
            let t = &types[k];
            if !matches!(t, Json::Object(_)) {
                assert(!named_type_ok(types@[k as int]));
                return Err(SchemaError::Malformed);
            }
            let name = match get_str(t, "name") {
                Some(n) => n.clone(),
                None => {
                    assert(!named_type_ok(types@[k as int]));
                    return Err(SchemaError::Malformed);
                },
            };
            let kind = match get_str(t, "kind") {
                Some(ks) => match kind_from(ks) {
                    Some(kind) => kind,
                    None => {
                        assert(!named_type_ok(types@[k as int]));
                        return Err(SchemaError::UnknownKind);
                    },
                },
                None => {
                    assert(!named_type_ok(types@[k as int]));
                    return Err(SchemaError::Malformed);
                },
            };
            let fields = match fields_from(get(t, "fields")) {
                Ok(f) => f,
                Err(e) => {
                    assert(!named_type_ok(types@[k as int]));
                    return Err(e);
                },
            };
            assert(named_type_ok(types@[k as int]));
            result.push(NamedType { name, kind, fields });
            k += 1;
        }
        let s = Schema { query_type, mutation_type, types: result };
        Ok(s)
    }
}

} // verus!
