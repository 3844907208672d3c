use vstd::prelude::*;
use vstd::string::StrSliceExecFns;
use vstd::string::StringExecFns;
use crate::parser;
use crate::parser::{Field, Type, Value};
use crate::schema;
use crate::schema::{NamedType, NamedTypeKind, Schema, leaf_name};
use crate::text::{decimal, decimal_text, is_ascii_lower, is_prefix, same_text, upper_of, upper_text};

verus! {

broadcast use crate::text::lemma_prefix_chain, crate::text::lemma_prefix_append, crate::text::lemma_prefix_refl;

/// Why code could not be generated for a document against a schema.
pub enum GenError {
    /// A type name that the schema does not hold, or a selection on a built-in scalar.
    UnknownType(String),
    /// A field that the selected type does not declare.
    UnknownField(String),
    /// The schema names no query or mutation root that it holds.
    MissingRoot,
    /// A `NonNull` type that wraps another `NonNull`.
    NestedNonNull,
}

/// Builds the generated source text for one document.
pub struct Codegen<'a> {
    schema: &'a Schema,
    fragments: &'a Vec<parser::Fragment>,
    src: String,
    indent: usize,
}

/// How a selection is rendered.
pub enum TypeCase {
    /// The selection is one fragment spread: the fragment's type is reused.
    SoleFragment(String),
    /// An interface selected only through spreads and inline fragments: a sum type.
    InterfaceOnlyFragments,
    /// An interface with plain fields as well: a product type with a nested sum type.
    Interface,
    /// Any other selection: a product type.
    Regular,
}

// ------------------------------------------------------------ the model

/// A type name: the first character capitalised.
pub open spec fn swift_name_of(s: Seq<char>) -> Seq<char> {
    if s.len() == 0 {
        s
    } else {
        upper_of(s[0]) + s.drop_first()
    }
}

pub open spec fn indent_text(n: nat) -> Seq<char>
    decreases n,
{
    if n == 0 {
        seq![]
    } else {
        indent_text((n - 1) as nat) + "    "@
    }
}

/// A line break followed by `n` levels of indentation.
pub open spec fn line_break(n: nat) -> Seq<char> {
    "\n"@ + indent_text(n)
}

/// `name : value` for each argument, separated by `, `.
pub open spec fn args_text(args: Seq<parser::Argument>) -> Seq<char>
    decreases args.len(),
{
    if args.len() == 0 {
        seq![]
    } else if args.len() == 1 {
        args[0].name@ + " : "@ + value_text(args[0].value)
    } else {
        args_text(args.drop_last()) + ", "@ + args.last().name@ + " : "@ + value_text(
            args.last().value,
        )
    }
}

/// The schema type of the field `name` of `t`, by name.
pub open spec fn field_type_of(s: Schema, t: NamedType, name: Seq<char>) -> Option<NamedType> {
    match schema::find_field(t.fields@, name) {
        Some(k) => s.named_of(t.fields@[k].of_type),
        None => None,
    }
}

/// How deep selections nest inside a field, the field itself counting one.
pub open spec fn field_depth(f: Field) -> nat
    decreases f, 0nat,
{
    match f {
        Field::PlainField(p) => 1 + selection_depth(p.fields@),
        Field::InlineFragment(i) => 1 + selection_depth(i.fields@),
        Field::Fragment(_) => 1,
    }
}

/// How deep selections nest inside a selection: the deepest of its fields.
pub open spec fn selection_depth(fs: Seq<Field>) -> nat
    decreases fs, 1nat,
{
    if fs.len() == 0 {
        0
    } else {
        let a = selection_depth(fs.drop_last());
        let b = field_depth(fs.last());
        if a >= b {
            a
        } else {
            b
        }
    }
}

/// Whether a document's selections are shallow enough for the indentation
/// count, which a machine word holds.
pub open spec fn fits_indentation(g: parser::GraphQL) -> bool {
    &&& forall|k: int|
        0 <= k < g.fragments@.len() ==> selection_depth(#[trigger] g.fragments@[k].fields@) + 10
            < usize::MAX
    &&& forall|k: int|
        0 <= k < g.queries@.len() ==> selection_depth(#[trigger] g.queries@[k].fields@) + 10
            < usize::MAX
    &&& forall|k: int|
        0 <= k < g.mutations@.len() ==> selection_depth(#[trigger] g.mutations@[k].fields@) + 10
            < usize::MAX
}

/// The query text of a selection on `t` whose closing brace stands at
/// indentation `n`: nothing for an empty selection, else the braced items one
/// per line, with `__typename` first on an interface. `None` where a nested
/// selection's type cannot be found.
pub open spec fn ql_selection(s: Schema, t: NamedType, fs: Seq<Field>, n: nat) -> Option<Seq<char>>
    decreases fs, 2nat,
{
    if fs.len() == 0 {
        Some(seq![])
    } else {
        match ql_items(s, t, fs, n + 1) {
            Some(body) => Some(
                " {"@ + (if t.kind == NamedTypeKind::Interface {
                    line_break(n + 1) + "__typename"@
                } else {
                    seq![]
                }) + body + line_break(n) + "}"@,
            ),
            None => None,
        }
    }
}

/// The items of a selection, each on its own line at indentation `n`.
pub open spec fn ql_items(s: Schema, t: NamedType, fs: Seq<Field>, n: nat) -> Option<Seq<char>>
    decreases fs, 1nat,
{
    if fs.len() == 0 {
        Some(seq![])
    } else {
        match (ql_items(s, t, fs.drop_last(), n), ql_item(s, t, fs.last(), n)) {
            (Some(a), Some(b)) => Some(a + line_break(n) + b),
            _ => None,
        }
    }
}

/// One item of a selection: a field with its arguments and selection, a
/// spread `...Name`, or an inline fragment `... on Type { ... }`.
pub open spec fn ql_item(s: Schema, t: NamedType, f: Field, n: nat) -> Option<Seq<char>>
    decreases f, 0nat,
{
    match f {
        Field::PlainField(p) => {
            let head = p.name@ + if p.args@.len() > 0 {
                "("@ + args_text(p.args@) + ")"@
            } else {
                seq![]
            };
            if p.fields@.len() == 0 {
                Some(head)
            } else {
                match field_type_of(s, t, p.name@) {
                    Some(ft) => match ql_selection(s, ft, p.fields@, n) {
                        Some(sel) => Some(head + sel),
                        None => None,
                    },
                    None => None,
                }
            }
        },
        Field::Fragment(name) => Some("..."@ + name@),
        Field::InlineFragment(i) => match s.named_of(i.on) {
            Some(nt) => match ql_selection(s, nt, i.fields@, n) {
                Some(sel) => Some("... on "@ + ql_type_text(i.on) + sel),
                None => None,
            },
            None => None,
        },
    }
}

/// The generated type for a schema type that is not `NonNull` itself:
/// built-in scalars by name, input objects and custom scalars by their
/// schema name, object and interface types by the nested type's name `nest`,
/// or by the fragment's type where the selection is one spread; lists in
/// brackets. `None` where the type is unknown or doubly `NonNull`.
pub open spec fn swift_type_required(s: Schema, t: Type, fields: Seq<Field>, nest: Seq<char>) -> Option<
    Seq<char>,
>
    decreases t, 0nat,
{
    match t {
        Type::NonNull(_) => None,
        Type::String => Some("String"@),
        Type::Int => Some("Int"@),
        Type::Float => Some("Float"@),
        Type::Bool => Some("Bool"@),
        Type::Input(name) => match s.lookup(name@) {
            Some(nt) => if nt.kind == NamedTypeKind::InputObject || nt.kind
                == NamedTypeKind::Scalar {
                Some(name@)
            } else {
                match sole_fragment_of(fields) {
                    Some(f) => Some(swift_name_of(f)),
                    None => Some(nest),
                }
            },
            None => None,
        },
        Type::Array(e) => match swift_type(s, *e, fields, nest) {
            Some(x) => Some("["@ + x + "]"@),
            None => None,
        },
    }
}

/// The generated type for a schema type: required for `NonNull`, else
/// optional, marked `?`.
pub open spec fn swift_type(s: Schema, t: Type, fields: Seq<Field>, nest: Seq<char>) -> Option<
    Seq<char>,
>
    decreases t, 1nat,
{
    match t {
        Type::NonNull(inner) => swift_type_required(s, *inner, fields, nest),
        _ => match swift_type_required(s, t, fields, nest) {
            Some(x) => Some(x + "?"@),
            None => None,
        },
    }
}

/// Tags and wrapped type names of a list of cases.
pub open spec fn case_views(cases: Seq<(String, String)>) -> Seq<(Seq<char>, Seq<char>)> {
    cases.map_values(|c: (String, String)| (c.0@, c.1@))
}

/// The sum type's cases for a selection: each branch's tag and the
/// capitalised name of the type it wraps.
pub open spec fn branch_cases(frs: Seq<parser::Fragment>, fs: Seq<Field>) -> Seq<(Seq<char>, Seq<char>)> {
    branches(fs).map_values(|f: Field| (branch_tag(frs, f), swift_name_of(branch_type(frs, f))))
}

/// One line about a case: its declaration (`arm` 0), its arm in `id` (1), or
/// its arm in the decoder (2).
pub open spec fn case_line(arm: u8, c: (Seq<char>, Seq<char>)) -> Seq<char> {
    if arm == 0 {
        "case As"@ + c.0 + "("@ + c.1 + ")"@
    } else if arm == 1 {
        "case let .As"@ + c.0 + "(value) : return value.id"@
    } else {
        "case \""@ + c.0 + "\" : self = .As"@ + c.0 + "(try "@ + c.1 + "(from: decoder))"@
    }
}

/// Each case's line, each on its own line at indentation `n`.
pub open spec fn case_lines_text(arm: u8, cs: Seq<(Seq<char>, Seq<char>)>, n: nat) -> Seq<char>
    decreases cs.len(),
{
    if cs.len() == 0 {
        seq![]
    } else {
        case_lines_text(arm, cs.drop_last(), n) + line_break(n) + case_line(arm, cs.last())
    }
}

/// The opening line of the sum type `name`, at indentation `n`.
pub open spec fn enum_head(name: Seq<char>, identifiable: bool, n: nat) -> Seq<char> {
    line_break(n) + "enum "@ + swift_name_of(name) + " : Decodable"@ + (if identifiable {
        ", Identifiable"@
    } else {
        seq![]
    }) + " {"@
}

/// An `id` that switches over the cases and forwards to the wrapped value's.
pub open spec fn id_text(cs: Seq<(Seq<char>, Seq<char>)>, n: nat) -> Seq<char> {
    line_break(n) + "var id : Int "@ + " {"@ + line_break(n + 1) + "switch self"@ + " {"@
        + case_lines_text(1, cs, n + 2) + line_break(n + 1) + "}"@ + line_break(n) + "}"@
}

/// A decoder that reads `__typename`, picks the case with that tag, and
/// throws for a value that no case has.
pub open spec fn decoder_text(cs: Seq<(Seq<char>, Seq<char>)>, n: nat) -> Seq<char> {
    line_break(n) + "init(from decoder: Decoder) throws"@ + " {"@ + line_break(n + 1)
        + "let container = try decoder.container(keyedBy: TypenameKeys.self)"@ + line_break(n + 1)
        + "switch try container.decode(String.self, forKey: .__typename)"@ + " {"@
        + case_lines_text(2, cs, n + 2) + line_break(n + 2) + "default: throw UnknownTypename()"@
        + line_break(n + 1) + "}"@ + line_break(n) + "}"@
}

/// The text of the sum type `name` with cases `cs`, opened on a new line at
/// indentation `n`: the case declarations, an `id` where `identifiable`, and
/// the decoder.
pub open spec fn enum_text(
    name: Seq<char>,
    identifiable: bool,
    cs: Seq<(Seq<char>, Seq<char>)>,
    n: nat,
) -> Seq<char> {
    enum_head(name, identifiable, n) + case_lines_text(0, cs, n + 1) + (if identifiable {
        id_text(cs, n + 1)
    } else {
        seq![]
    }) + decoder_text(cs, n + 1) + line_break(n) + "}"@ + line_break(n)
}

/// The stored property for one item of a selection on `t`, on its own line
/// at indentation `n`: `var name : Type` for a plain field, `var F : F` for
/// a spread outside an interface, nothing for the rest.
pub open spec fn property_line(s: Schema, t: NamedType, f: Field, n: nat) -> Option<Seq<char>> {
    match f {
        Field::PlainField(p) => match schema::find_field(t.fields@, p.name@) {
            Some(k) => match swift_type(s, t.fields@[k].of_type, p.fields@, swift_name_of(p.name@)) {
                Some(x) => Some(line_break(n) + "var "@ + p.name@ + " : "@ + x),
                None => None,
            },
            None => None,
        },
        Field::InlineFragment(_) => Some(seq![]),
        Field::Fragment(fr) => if t.kind == NamedTypeKind::Interface {
            Some(seq![])
        } else {
            Some(line_break(n) + "var "@ + fr@ + " : "@ + swift_name_of(fr@))
        },
    }
}

pub open spec fn property_lines(s: Schema, t: NamedType, fs: Seq<Field>, n: nat) -> Option<Seq<char>>
    decreases fs.len(),
{
    if fs.len() == 0 {
        Some(seq![])
    } else {
        match (property_lines(s, t, fs.drop_last(), n), property_line(s, t, fs.last(), n)) {
            (Some(a), Some(b)) => Some(a + b),
            _ => None,
        }
    }
}

/// The stored properties of a product type, with `var kind : Types` last on
/// an interface.
pub open spec fn properties_text(s: Schema, t: NamedType, fs: Seq<Field>, n: nat) -> Option<Seq<char>> {
    match property_lines(s, t, fs, n) {
        Some(x) => Some(x + if t.kind == NamedTypeKind::Interface {
            line_break(n) + "var kind : Types"@
        } else {
            seq![]
        }),
        None => None,
    }
}

/// `, name` for each plain field.
pub open spec fn coding_keys(fs: Seq<Field>) -> Seq<char>
    decreases fs.len(),
{
    if fs.len() == 0 {
        seq![]
    } else {
        coding_keys(fs.drop_last()) + match fs.last() {
            Field::PlainField(p) => ", "@ + p.name@,
            _ => seq![],
        }
    }
}

/// The decoding statement for one plain field, on its own line.
pub open spec fn decode_line(s: Schema, t: NamedType, f: Field, n: nat) -> Option<Seq<char>> {
    match f {
        Field::PlainField(p) => match schema::find_field(t.fields@, p.name@) {
            Some(k) => match swift_type(s, t.fields@[k].of_type, p.fields@, swift_name_of(p.name@)) {
                Some(x) => Some(line_break(n) + "self."@ + p.name@ + " = try container.decode("@ + x
                    + ".self, forKey: ."@ + p.name@ + ")"@),
                None => None,
            },
            None => None,
        },
        _ => Some(seq![]),
    }
}

pub open spec fn decode_lines(s: Schema, t: NamedType, fs: Seq<Field>, n: nat) -> Option<Seq<char>>
    decreases fs.len(),
{
    if fs.len() == 0 {
        Some(seq![])
    } else {
        match (decode_lines(s, t, fs.drop_last(), n), decode_line(s, t, fs.last(), n)) {
            (Some(a), Some(b)) => Some(a + b),
            _ => None,
        }
    }
}

/// The coding keys and decoder of an interface type with plain fields: each
/// plain field by its key, then the `Types` sum type from the same input.
pub open spec fn custom_decoding_text(s: Schema, t: NamedType, fs: Seq<Field>, n: nat) -> Option<
    Seq<char>,
> {
    match decode_lines(s, t, fs, n + 1) {
        Some(d) => Some(
            line_break(n) + "enum CodingKeys : String, CodingKey"@ + " {"@ + line_break(n + 1)
                + "case __typename"@ + coding_keys(fs) + line_break(n) + "}"@ + line_break(n)
                + "init(from decoder: Decoder) throws"@ + " {"@ + line_break(n + 1)
                + "let container = try decoder.container(keyedBy: CodingKeys.self)"@ + d
                + line_break(n + 1) + "self.kind = try Types(from: decoder)"@ + line_break(n) + "}"@,
        ),
        None => None,
    }
}

/// The opening of a generated type declaration: `struct Name : Decodable {`.
pub open spec fn type_def_text(kind: Seq<char>, name: Seq<char>, identifiable: bool) -> Seq<char> {
    kind + " "@ + swift_name_of(name) + " : Decodable"@ + (if identifiable {
        ", Identifiable"@
    } else {
        seq![]
    }) + " {"@
}

pub open spec fn join(a: Option<Seq<char>>, b: Option<Seq<char>>) -> Option<Seq<char>> {
    match (a, b) {
        (Some(x), Some(y)) => Some(x + y),
        _ => None,
    }
}

/// Whether a selection selects a plain field named `id`.
pub open spec fn has_id_selected(fs: Seq<Field>) -> bool {
    exists|k: int|
        0 <= k < fs.len() && #[trigger] fs[k] is PlainField && fs[k]->PlainField_0.name@ == "id"@
}

/// Whether every spread and inline fragment of a selection resolves to a schema type.
pub open spec fn branches_resolve(s: Schema, frs: Seq<parser::Fragment>, fs: Seq<Field>) -> bool {
    forall|k: int| 0 <= k < fs.len() ==> branch_resolves(s, frs, #[trigger] fs[k])
}

/// A spread names a declared fragment on a schema type; an inline fragment is
/// on a schema type.
pub open spec fn branch_resolves(s: Schema, frs: Seq<parser::Fragment>, f: Field) -> bool {
    match f {
        Field::Fragment(n) => fragment_named(frs, n@) matches Some(fr) && s.named_of(fr.on) is Some,
        Field::InlineFragment(i) => s.named_of(i.on) is Some,
        Field::PlainField(_) => true,
    }
}

/// The declarations generated for a selection on `t` named after `name`, at
/// indentation `n`: nothing for a sole spread; a sum type for an interface
/// selected only through fragments; for an interface with plain fields a
/// product type holding the nested types, a `Types` sum type, the properties
/// and a custom decoder; else a product type with its nested types and
/// properties. `None` where a name cannot be resolved.
pub open spec fn type_decl(s: Schema, frs: Seq<parser::Fragment>, t: NamedType, name: Seq<char>, fs: Seq<Field>, n: nat) -> Option<
    Seq<char>,
>
    decreases fs, 2nat,
{
    let is_id = schema::find_field(t.fields@, "id"@) is Some;
    if sole_fragment_of(fs) is Some {
        Some(seq![])
    } else if t.kind == NamedTypeKind::Interface && only_fragments(fs) {
        if branches_resolve(s, frs, fs) {
            join(Some(line_break(n) + enum_text(name, is_id, branch_cases(frs, fs), n)), nested_types(s, frs, t, fs, n))
        } else {
            None
        }
    } else if t.kind == NamedTypeKind::Interface {
        if branches_resolve(s, frs, fs) {
            match join(
                join(nested_types(s, frs, t, fs, n + 1), properties_text(s, t, fs, n + 1)),
                custom_decoding_text(s, t, fs, n + 1),
            ) {
                Some(body) => Some(line_break(n) + type_def_text("struct"@, name, has_id_selected(fs))
                    + enum_text("Types"@, is_id, branch_cases(frs, fs), n + 1) + body + line_break(n) + "}"@),
                None => None,
            }
        } else {
            None
        }
    } else {
        match join(nested_types(s, frs, t, fs, n + 1), properties_text(s, t, fs, n + 1)) {
            Some(body) => Some(line_break(n) + type_def_text("struct"@, name, has_id_selected(fs)) + body
                + line_break(n) + "}"@),
            None => None,
        }
    }
}

/// The nested declarations that the items of a selection on `t` need, in
/// order: one for each plain field with its own selection, and one for each
/// inline fragment, named after the schema type it is on. A selection that is
/// a sole spread declares nothing.
pub open spec fn nested_types(s: Schema, frs: Seq<parser::Fragment>, t: NamedType, fs: Seq<Field>, n: nat) -> Option<
    Seq<char>,
>
    decreases fs, 1nat,
{
    if fs.len() == 0 {
        Some(seq![])
    } else {
        let rest = nested_types(s, frs, t, fs.drop_first(), n);
        match fs[0] {
            Field::PlainField(p) => if p.fields@.len() > 0 && sole_fragment_of(p.fields@) is None {
                match field_type_of(s, t, p.name@) {
                    Some(ft) => join(type_decl(s, frs, ft, p.name@, p.fields@, n), rest),
                    None => None,
                }
            } else {
                rest
            },
            Field::InlineFragment(i) => match s.named_of(i.on) {
                Some(nt) => join(type_decl(s, frs, nt, nt.name@, i.fields@, n), rest),
                None => None,
            },
            Field::Fragment(_) => rest,
        }
    }
}

/// `acc` followed by the fragments spread in a field that `acc` lacks, in
/// order of first appearance.
pub open spec fn collect_field(acc: Seq<Seq<char>>, f: Field) -> Seq<Seq<char>>
    decreases f, 0nat,
{
    match f {
        Field::PlainField(p) => collect(acc, p.fields@),
        Field::InlineFragment(i) => collect(acc, i.fields@),
        Field::Fragment(n) => if acc.contains(n@) {
            acc
        } else {
            acc.push(n@)
        },
    }
}

/// `acc` followed by the fragments spread in a selection that `acc` lacks,
/// in order of first appearance.
pub open spec fn collect(acc: Seq<Seq<char>>, fs: Seq<Field>) -> Seq<Seq<char>>
    decreases fs, 1nat,
{
    if fs.len() == 0 {
        acc
    } else {
        collect_field(collect(acc, fs.drop_last()), fs.last())
    }
}

/// The fragments a selection depends on, once each, in order of first appearance.
pub open spec fn dependency_list(fs: Seq<Field>) -> Seq<Seq<char>> {
    collect(seq![], fs)
}

/// The generated `var` for each operation argument, each followed by a line break.
pub open spec fn arg_props(s: Schema, args: Seq<parser::ArgumentDef>, n: nat) -> Option<Seq<char>>
    decreases args.len(),
{
    if args.len() == 0 {
        Some(seq![])
    } else {
        join(
            arg_props(s, args.drop_last(), n),
            match swift_type(s, args.last().kind, seq![], seq![]) {
                Some(x) => Some("var "@ + args.last().name@ + " : "@ + x + line_break(n)),
                None => None,
            },
        )
    }
}

/// `($a : T, ...)` for an operation's parameters; nothing where it has none.
pub open spec fn params_text(args: Seq<parser::ArgumentDef>) -> Seq<char> {
    if args.len() > 0 {
        "("@ + arg_defs_text(args) + ")"@
    } else {
        seq![]
    }
}

/// The `fragments` list and the `graphql` text of an operation, at indentation `n`.
pub open spec fn ql_text(
    s: Schema,
    kind: Seq<char>,
    base: NamedType,
    name: Seq<char>,
    args: Seq<parser::ArgumentDef>,
    fs: Seq<Field>,
    n: nat,
) -> Option<Seq<char>> {
    match ql_selection(s, base, fs, n) {
        Some(sel) => Some(
            "static let fragments : [String] = "@ + "["@ + quoted_list(dependency_list(fs)) + "]"@
                + line_break(n) + "static let graphql = \"\"\""@ + line_break(n) + kind + " "@ + name
                + params_text(args) + sel + line_break(n) + "\"\"\""@ + line_break(n),
        ),
        None => None,
    }
}

/// The request type of an operation at indentation `n`: its text, a
/// property per argument and its `Data` response type.
pub open spec fn api_text(
    s: Schema,
    frs: Seq<parser::Fragment>,
    kind: Seq<char>,
    base: NamedType,
    name: Seq<char>,
    args: Seq<parser::ArgumentDef>,
    fs: Seq<Field>,
    n: nat,
) -> Option<Seq<char>> {
    match (ql_text(s, kind, base, name, args, fs, n + 1), arg_props(s, args, n + 1), type_decl(s, frs, base, "Data"@, fs, n + 1)) {
        (Some(q), Some(a), Some(d)) => Some(
            line_break(n) + line_break(n) + "struct "@ + swift_name_of(name) + swift_name_of(kind)
                + " : Encodable, GraphQL"@ + swift_name_of(kind) + " {"@ + line_break(n + 1) + q
                + line_break(n + 1) + a + d + line_break(n) + "}"@,
        ),
        _ => None,
    }
}

/// The request types of a document's queries, in order.
pub open spec fn queries_text(s: Schema, frs: Seq<parser::Fragment>, root: NamedType, qs: Seq<parser::Query>, n: nat) -> Option<Seq<char>>
    decreases qs.len(),
{
    if qs.len() == 0 {
        Some(seq![])
    } else {
        join(
            queries_text(s, frs, root, qs.drop_last(), n),
            api_text(s, frs, "query"@, root, qs.last().name@, qs.last().args@, qs.last().fields@, n),
        )
    }
}

/// The request types of a document's mutations, in order.
pub open spec fn mutations_text(s: Schema, frs: Seq<parser::Fragment>, root: NamedType, ms: Seq<parser::Mutation>, n: nat) -> Option<Seq<char>>
    decreases ms.len(),
{
    if ms.len() == 0 {
        Some(seq![])
    } else {
        join(
            mutations_text(s, frs, root, ms.drop_last(), n),
            api_text(s, frs, "mutation"@, root, ms.last().name@, ms.last().args@, ms.last().fields@, n),
        )
    }
}

/// The opening of the function that registers fragment `f`, up to its
/// text's selection.
pub open spec fn registration_head(f: parser::Fragment, on: NamedType, n: nat) -> Seq<char> {
    line_break(n) + "func init"@ + swift_name_of(f.name@) + "Fragment(meta: FragmentMeta)"@ + " {"@
        + line_break(n + 1) + "meta.register(name: \""@ + f.name@ + "\", fragments: "@ + ("["@
        + quoted_list(dependency_list(f.fields@)) + "]"@ + ", graphql: \"\"\""@) + line_break(n + 1)
        + "fragment "@ + f.name@ + " on "@ + on.name@ + params_text(f.args@)
}

/// The function that registers fragment `f`, whose type condition is `on`,
/// with its name, dependencies and text, at indentation `n`.
pub open spec fn registration_text(s: Schema, f: parser::Fragment, on: NamedType, n: nat) -> Option<Seq<char>> {
    match ql_selection(s, on, f.fields@, n + 1) {
        Some(sel) => Some(
            registration_head(f, on, n) + sel + line_break(n + 1) + "\"\"\")"@ + line_break(n) + "}"@,
        ),
        None => None,
    }
}

/// A fragment's type and the function that registers it, at indentation `n`.
pub open spec fn fragment_text(s: Schema, frs: Seq<parser::Fragment>, f: parser::Fragment, n: nat) -> Option<Seq<char>> {
    match s.named_of(f.on) {
        Some(on) => join(
            join(Some(line_break(n) + line_break(n)), type_decl(s, frs, on, f.name@, f.fields@, n)),
            registration_text(s, f, on, n),
        ),
        None => None,
    }
}

/// The types and registrations of a document's fragments, in order.
pub open spec fn fragments_text(s: Schema, frs: Seq<parser::Fragment>, items: Seq<parser::Fragment>, n: nat) -> Option<Seq<char>>
    decreases items.len(),
{
    if items.len() == 0 {
        Some(seq![])
    } else {
        join(fragments_text(s, frs, items.drop_last(), n), fragment_text(s, frs, items.last(), n))
    }
}

/// The whole generated text of a document: its fragments, then its queries
/// against the query root, then its mutations against the mutation root.
/// `None` where a name cannot be resolved, or a root is needed and missing.
pub open spec fn document_text(s: Schema, g: parser::GraphQL) -> Option<Seq<char>> {
    let frs = g.fragments@;
    let q = if g.queries@.len() == 0 {
        Some(seq![])
    } else {
        match s.lookup(s.query_type()) {
            Some(root) => queries_text(s, frs, root, g.queries@, 0),
            None => None,
        }
    };
    let m = if g.mutations@.len() == 0 {
        Some(seq![])
    } else {
        match s.lookup(s.mutation_type()) {
            Some(root) => mutations_text(s, frs, root, g.mutations@, 0),
            None => None,
        }
    };
    join(join(fragments_text(s, frs, g.fragments@, 0), q), m)
}

/// The fragment that a selection consists of, when it is exactly one spread.
pub open spec fn sole_fragment_of(fields: Seq<Field>) -> Option<Seq<char>> {
    if fields.len() == 1 && fields[0] is Fragment {
        Some(fields[0]->Fragment_0@)
    } else {
        None
    }
}

pub open spec fn only_fragments(fields: Seq<Field>) -> bool {
    forall|k: int| 0 <= k < fields.len() ==> !(#[trigger] fields[k] is PlainField)
}

/// Fragment names spread anywhere in a field, through nested selections.
pub open spec fn field_fragments(f: Field) -> Set<Seq<char>>
    decreases f,
{
    match f {
        Field::PlainField(p) => selection_fragments(p.fields@),
        Field::InlineFragment(i) => selection_fragments(i.fields@),
        Field::Fragment(n) => set![n@],
    }
}

/// Fragment names spread anywhere in a selection, through nested selections.
pub open spec fn selection_fragments(fs: Seq<Field>) -> Set<Seq<char>>
    decreases fs,
{
    if fs.len() == 0 {
        Set::empty()
    } else {
        selection_fragments(fs.drop_last()).union(field_fragments(fs.last()))
    }
}

/// The spreads and inline fragments of a selection, in order.
pub open spec fn branches(fs: Seq<Field>) -> Seq<Field>
    decreases fs.len(),
{
    if fs.len() == 0 {
        seq![]
    } else if fs.last() is PlainField {
        branches(fs.drop_last())
    } else {
        branches(fs.drop_last()).push(fs.last())
    }
}

/// The case tag of a branch: the schema type that the spread fragment, or the
/// inline fragment, is on.
pub open spec fn branch_tag(frs: Seq<parser::Fragment>, f: Field) -> Seq<char> {
    match f {
        Field::Fragment(n) => leaf_name(fragment_named(frs, n@)->Some_0.on)->Some_0,
        Field::InlineFragment(i) => leaf_name(i.on)->Some_0,
        Field::PlainField(p) => p.name@,
    }
}

/// The type a branch's case wraps, before capitalisation: the fragment's own
/// type for a spread, else the inline fragment's sole spread or its type.
pub open spec fn branch_type(frs: Seq<parser::Fragment>, f: Field) -> Seq<char> {
    match f {
        Field::Fragment(n) => n@,
        Field::InlineFragment(i) => match sole_fragment_of(i.fields@) {
            Some(n) => n,
            None => branch_tag(frs, f),
        },
        _ => branch_tag(frs, f),
    }
}

/// The first fragment declared under `name`.
pub open spec fn fragment_named(frs: Seq<parser::Fragment>, name: Seq<char>) -> Option<parser::Fragment>
    decreases frs.len(),
{
    if frs.len() == 0 {
        None
    } else if frs[0].name@ == name {
        Some(frs[0])
    } else {
        fragment_named(frs.drop_first(), name)
    }
}

/// How a value is written back into query text. `false` keeps a trailing space.
pub open spec fn value_text(v: Value) -> Seq<char> {
    match v {
        Value::Bool(b) => if b {
            "true"@
        } else {
            "false "@
        },
        Value::String(s) => "\""@ + s@ + "\""@,
        Value::Int(i) => decimal(i as int),
        Value::Variable(n) => "$"@ + n@,
    }
}

/// How a type is written back into query text.
pub open spec fn ql_type_text(t: Type) -> Seq<char>
    decreases t,
{
    match t {
        Type::String => "String"@,
        Type::Float => "Float"@,
        Type::Bool => "Bool"@,
        Type::Int => "Int"@,
        Type::NonNull(e) => ql_type_text(*e) + "!"@,
        Type::Array(e) => "["@ + ql_type_text(*e) + "]"@,
        Type::Input(n) => n@,
    }
}

/// `$name : Type` for each definition, separated by `, `.
pub open spec fn arg_defs_text(args: Seq<parser::ArgumentDef>) -> Seq<char>
    decreases args.len(),
{
    if args.len() == 0 {
        seq![]
    } else if args.len() == 1 {
        "$"@ + args[0].name@ + " : "@ + ql_type_text(args[0].kind)
    } else {
        arg_defs_text(args.drop_last()) + ", "@ + "$"@ + args.last().name@ + " : "@ + ql_type_text(
            args.last().kind,
        )
    }
}

/// A selection's spread fragments, listed once each: the text `["A","B"]`.
pub open spec fn quoted_list(names: Seq<Seq<char>>) -> Seq<char>
    decreases names.len(),
{
    if names.len() == 0 {
        seq![]
    } else if names.len() == 1 {
        "\""@ + names[0] + "\""@
    } else {
        quoted_list(names.drop_last()) + ","@ + "\""@ + names.last() + "\""@
    }
}

pub open spec fn views(ss: Seq<String>) -> Seq<Seq<char>> {
    ss.map_values(|s: String| s@)
}

/// The names a list of strings holds.
pub open spec fn names_set(ss: Seq<String>) -> Set<Seq<char>> {
    Set::new(|x: Seq<char>| exists|i: int| 0 <= i < ss.len() && (#[trigger] ss[i])@ == x)
}

pub open spec fn distinct_names(ss: Seq<String>) -> bool {
    forall|i: int, j: int| 0 <= i < j < ss.len() ==> (#[trigger] ss[i])@ != (#[trigger] ss[j])@
}

/// A selection whose item `k` cannot be written cannot be written as a whole.
proof fn lemma_items_fail(s: Schema, t: NamedType, fs: Seq<Field>, k: int, n: nat)
    requires
        0 <= k < fs.len(),
        ql_item(s, t, fs[k], n) is None,
    ensures
        ql_items(s, t, fs, n) is None,
    decreases fs.len(),
{
    if k < fs.len() - 1 {
        assert(fs.drop_last()[k] == fs[k]);
        lemma_items_fail(s, t, fs.drop_last(), k, n);
    }
}

proof fn lemma_property_lines_fail(s: Schema, t: NamedType, fs: Seq<Field>, k: int, n: nat)
    requires
        0 <= k < fs.len(),
        property_line(s, t, fs[k], n) is None,
    ensures
        property_lines(s, t, fs, n) is None,
    decreases fs.len(),
{
    if k < fs.len() - 1 {
        assert(fs.drop_last()[k] == fs[k]);
        lemma_property_lines_fail(s, t, fs.drop_last(), k, n);
    }
}

proof fn lemma_decode_lines_fail(s: Schema, t: NamedType, fs: Seq<Field>, k: int, n: nat)
    requires
        0 <= k < fs.len(),
        decode_line(s, t, fs[k], n) is None,
    ensures
        decode_lines(s, t, fs, n) is None,
    decreases fs.len(),
{
    if k < fs.len() - 1 {
        assert(fs.drop_last()[k] == fs[k]);
        lemma_decode_lines_fail(s, t, fs.drop_last(), k, n);
    }
}

proof fn lemma_arg_props_fail(s: Schema, args: Seq<parser::ArgumentDef>, k: int, n: nat)
    requires
        0 <= k < args.len(),
        swift_type(s, args[k].kind, seq![], seq![]) is None,
    ensures
        arg_props(s, args, n) is None,
    decreases args.len(),
{
    if k < args.len() - 1 {
        assert(args.drop_last()[k] == args[k]);
        lemma_arg_props_fail(s, args.drop_last(), k, n);
    }
}

/// A field is no deeper than the selection that holds it.
proof fn lemma_field_depth(fs: Seq<Field>, k: int)
    requires
        0 <= k < fs.len(),
    ensures
        field_depth(fs[k]) <= selection_depth(fs),
    decreases fs.len(),
{
    if k < fs.len() - 1 {
        assert(fs.drop_last()[k] == fs[k]);
        lemma_field_depth(fs.drop_last(), k);
    }
}

// ------------------------------------------------------------ laws

/// Where every element of a selection is a spread or an inline fragment, each
/// element is a branch of the sum type: one case per element, in order.
pub proof fn lemma_only_fragments_all_branches(fs: Seq<Field>)
    requires
        only_fragments(fs),
    ensures
        branches(fs) == fs,
    decreases fs.len(),
{
    if fs.len() > 0 {
        assert(only_fragments(fs.drop_last())) by {
            assert forall|k: int| 0 <= k < fs.drop_last().len() implies !(
            #[trigger] fs.drop_last()[k] is PlainField) by {
                assert(fs.drop_last()[k] == fs[k]);
            }
        }
        lemma_only_fragments_all_branches(fs.drop_last());
        assert(!(fs[fs.len() - 1] is PlainField));
        assert(fs.drop_last().push(fs.last()) =~= fs);
    }
}

/// A selection that is exactly one spread `...F` declares no type of its
/// own, wherever it stands, and a field selected that way is typed with the
/// fragment's type name.
pub proof fn lemma_sole_fragment_reused(
    s: Schema,
    frs: Seq<parser::Fragment>,
    t: NamedType,
    name: Seq<char>,
    fs: Seq<Field>,
    n: nat,
    field_type: Type,
    nest: Seq<char>,
)
    requires
        fs.len() == 1,
        fs[0] is Fragment,
    ensures
        type_decl(s, frs, t, name, fs, n) == Some(Seq::<char>::empty()),
        field_type matches Type::Input(tn) && s.lookup(tn@) matches Some(nt) && nt.kind
            != NamedTypeKind::InputObject && nt.kind != NamedTypeKind::Scalar ==> swift_type_required(
            s,
            field_type,
            fs,
            nest,
        ) == Some(swift_name_of(fs[0]->Fragment_0@)),
{
}

/// On an interface, a selection made only of spreads and inline fragments
/// becomes a sum type with one case per element, in order, each tagged with
/// the element's branch name; its decoder throws for any other `__typename`.
/// The sum type is followed by the types that its inline branches wrap.
pub proof fn lemma_interface_sum_type(s: Schema, frs: Seq<parser::Fragment>, t: NamedType, name: Seq<char>, fs: Seq<Field>, n: nat)
    requires
        t.kind == NamedTypeKind::Interface,
        only_fragments(fs),
        sole_fragment_of(fs) is None,
        branches_resolve(s, frs, fs),
    ensures
        type_decl(s, frs, t, name, fs, n) == join(
            Some(
                line_break(n) + enum_text(
                    name,
                    schema::find_field(t.fields@, "id"@) is Some,
                    branch_cases(frs, fs),
                    n,
                ),
            ),
            nested_types(s, frs, t, fs, n),
        ),
        branch_cases(frs, fs).len() == fs.len(),
        forall|k: int| 0 <= k < fs.len() ==> (#[trigger] branch_cases(frs, fs)[k]).0 == branch_tag(frs, fs[k]),
        enum_text(name, schema::find_field(t.fields@, "id"@) is Some, branch_cases(frs, fs), n)
            == enum_head(name, schema::find_field(t.fields@, "id"@) is Some, n)
            + case_lines_text(0, branch_cases(frs, fs), n + 1) + (if schema::find_field(t.fields@, "id"@) is Some {
            id_text(branch_cases(frs, fs), n + 1)
        } else {
            seq![]
        }) + decoder_text(branch_cases(frs, fs), n + 1) + line_break(n) + "}"@ + line_break(n),
{
    lemma_only_fragments_all_branches(fs);
}

/// The fragments a selection depends on are a set: the same elements in
/// another order give the same set.
pub proof fn lemma_fragments_order_free(a: Seq<Field>, b: Seq<Field>)
    requires
        a.to_multiset() == b.to_multiset(),
    ensures
        selection_fragments(a) == selection_fragments(b),
{
    lemma_selection_fragments_members(a);
    lemma_selection_fragments_members(b);
    assert forall|n: Seq<char>| selection_fragments(a).contains(n) implies selection_fragments(
        b,
    ).contains(n) by {
        let k = choose|k: int| 0 <= k < a.len() && #[trigger] field_fragments(a[k]).contains(n);
        let j = lemma_same_items(a, b, k);
        assert(field_fragments(b[j]).contains(n));
    }
    assert forall|n: Seq<char>| selection_fragments(b).contains(n) implies selection_fragments(
        a,
    ).contains(n) by {
        let k = choose|k: int| 0 <= k < b.len() && #[trigger] field_fragments(b[k]).contains(n);
        let j = lemma_same_items(b, a, k);
        assert(field_fragments(a[j]).contains(n));
    }
    assert(selection_fragments(a) =~= selection_fragments(b));
}

/// Each fragment declaration with the fragments it depends on.
pub open spec fn dependency_table(frs: Seq<parser::Fragment>) -> Set<(Seq<char>, Set<Seq<char>>)> {
    frs.map_values(|f: parser::Fragment| (f.name@, selection_fragments(f.fields@))).to_set()
}

proof fn lemma_same_items<A>(a: Seq<A>, b: Seq<A>, k: int) -> (j: int)
    requires
        a.to_multiset() == b.to_multiset(),
        0 <= k < a.len(),
    ensures
        0 <= j < b.len(),
        b[j] == a[k],
{
    a.to_multiset_ensures();
    b.to_multiset_ensures();
    assert(a.contains(a[k]));
    assert(a.to_multiset().count(a[k]) > 0);
    assert(b.to_multiset().count(a[k]) > 0);
    assert(b.contains(a[k]));
    choose|j: int| 0 <= j < b.len() && b[j] == a[k]
}

/// Dependency lists do not depend on the order in which fragments are
/// declared: declaring the same fragments in another order gives every
/// fragment the same set of dependencies.
pub proof fn lemma_dependencies_invariant_under_reordering(
    a: Seq<parser::Fragment>,
    b: Seq<parser::Fragment>,
)
    requires
        a.to_multiset() == b.to_multiset(),
    ensures
        dependency_table(a) == dependency_table(b),
{
    let g = |f: parser::Fragment| (f.name@, selection_fragments(f.fields@));
    assert forall|x| dependency_table(a).contains(x) implies dependency_table(b).contains(x) by {
        let k = choose|k: int| 0 <= k < a.len() && a.map_values(g)[k] == x;
        let j = lemma_same_items(a, b, k);
        assert(b.map_values(g)[j] == x);
    }
    assert forall|x| dependency_table(b).contains(x) implies dependency_table(a).contains(x) by {
        let k = choose|k: int| 0 <= k < b.len() && b.map_values(g)[k] == x;
        let j = lemma_same_items(b, a, k);
        assert(a.map_values(g)[j] == x);
    }
    assert(dependency_table(a) =~= dependency_table(b));
}

proof fn lemma_selection_fragments_members(fs: Seq<Field>)
    ensures
        forall|n: Seq<char>|
            selection_fragments(fs).contains(n) <==> exists|k: int|
                0 <= k < fs.len() && #[trigger] field_fragments(fs[k]).contains(n),
    decreases fs.len(),
{
    if fs.len() > 0 {
        lemma_selection_fragments_members(fs.drop_last());
        assert forall|n: Seq<char>| selection_fragments(fs).contains(n) <==> exists|k: int|
            0 <= k < fs.len() && #[trigger] field_fragments(fs[k]).contains(n) by {
            if selection_fragments(fs).contains(n) {
                if field_fragments(fs.last()).contains(n) {
                    assert(field_fragments(fs[fs.len() - 1]).contains(n));
                } else {
                    assert(selection_fragments(fs.drop_last()).contains(n));
                    let k = choose|k: int|
                        0 <= k < fs.drop_last().len() && #[trigger] field_fragments(
                            fs.drop_last()[k],
                        ).contains(n);
                    assert(fs.drop_last()[k] == fs[k]);
                }
            }
            if exists|k: int| 0 <= k < fs.len() && #[trigger] field_fragments(fs[k]).contains(n) {
                let k = choose|k: int|
                    0 <= k < fs.len() && #[trigger] field_fragments(fs[k]).contains(n);
                if k < fs.len() - 1 {
                    assert(fs.drop_last()[k] == fs[k]);
                    assert(field_fragments(fs.drop_last()[k]).contains(n));
                    assert(selection_fragments(fs.drop_last()).contains(n));
                } else {
                    assert(fs.last() == fs[k]);
                }
                assert(selection_fragments(fs).contains(n));
            }
        }
    }
}

// ------------------------------------------------------------ generation

impl<'a> Codegen<'a> {
    pub closed spec fn text(&self) -> Seq<char> {
        self.src@
    }

    pub closed spec fn schema_of(&self) -> &'a Schema {
        self.schema
    }

    /// The document's fragment declarations, which spreads refer to.
    pub closed spec fn frags(&self) -> Seq<parser::Fragment> {
        self.fragments@
    }

    /// The same schema, and the text so far kept as a prefix.
    pub open spec fn extends(&self, before: &Self) -> bool {
        &&& self.schema_of() == before.schema_of()
        &&& self.frags() == before.frags()
        &&& is_prefix(before.text(), self.text())
    }

    /// A generator over `schema`, for a document that declares `fragments`,
    /// with nothing written yet.
    pub fn new(schema: &'a Schema, fragments: &'a Vec<parser::Fragment>) -> (c: Codegen<'a>)
        ensures
            c.schema_of() == schema,
            c.frags() == fragments@,
            c.text() == Seq::<char>::empty(),
    {
        Codegen { schema, fragments, src: String::new(), indent: 0 }
    }

    /// The text generated so far.
    pub fn source(&self) -> (r: &String)
        ensures
            r@ == self.text(),
    {
        &self.src
    }

    fn put(&mut self, s: &str)
        ensures
            final(self).text() == old(self).text() + s@,
            final(self).extends(old(self)),
            final(self).schema_of() == old(self).schema_of() && final(self).frags() == old(self).frags(),
            final(self).indent == old(self).indent,
    {
        self.src.append(s);
    }

    fn indent(&mut self)
        ensures
            final(self).text() == old(self).text(),
            final(self).schema_of() == old(self).schema_of() && final(self).frags() == old(self).frags(),
            old(self).indent < usize::MAX ==> final(self).indent == old(self).indent + 1,
    {
        if self.indent < usize::MAX {
            self.indent += 1;
        }
    }

    fn unindent(&mut self)
        ensures
            final(self).text() == old(self).text(),
            final(self).schema_of() == old(self).schema_of() && final(self).frags() == old(self).frags(),
            old(self).indent > 0 ==> final(self).indent == old(self).indent - 1,
    {
        if self.indent > 0 {
            self.indent -= 1;
        }
    }

    fn opening_brace(&mut self)
        ensures
            final(self).text() == old(self).text() + " {"@,
            final(self).extends(old(self)),
            old(self).indent < usize::MAX ==> final(self).indent == old(self).indent + 1,
    {
        self.put(" {");
        self.indent();
    }

    fn closing_brace(&mut self)
        ensures
            final(self).extends(old(self)),
            old(self).indent > 0 ==> final(self).indent == old(self).indent - 1
                && final(self).text() == old(self).text() + line_break((old(self).indent - 1) as nat)
                + "}"@,
    {
        self.unindent();
        self.newline();
        self.put("}");
    }

    /// A line break and the current indentation.
    fn newline(&mut self)
        ensures
            final(self).text() == old(self).text() + "\n"@ + indent_text(old(self).indent as nat),
            final(self).extends(old(self)),
            final(self).indent == old(self).indent,
    {
        self.put("\n");
        let mut k: usize = 0;
        while k < self.indent
            invariant
                k <= self.indent == old(self).indent,
                self.schema_of() == old(self).schema_of(),
                self.frags() == old(self).frags(),
                self.text() == old(self).text() + "\n"@ + indent_text(k as nat),
            decreases self.indent - k,
        {
            self.put("    ");
            k += 1;
        }
        proof {
            crate::text::lemma_prefix_append(old(self).text() + "\n"@, indent_text(k as nat));
            crate::text::lemma_prefix_append(old(self).text(), "\n"@);
        }
    }

    /// The type name for `s`: its first character capitalised.
    pub fn swift_name(s: &str) -> (r: String)
        ensures
            r@ == swift_name_of(s@),
            s@.len() > 0 && is_ascii_lower(s@[0]) ==> r@ == seq![((s@[0] as u32) - 32) as char]
                + s@.drop_first(),
            s@.len() > 0 && (s@[0] as u32) < 128 && !is_ascii_lower(s@[0]) ==> r@ == s@,
    {
        let n = s.unicode_len();
        if n == 0 {
            return String::new();
        }
        let mut r = upper_text(s.get_char(0));
        r.append(s.substring_char(1, n));
        assert(s@.subrange(1, n as int) =~= s@.drop_first());
        proof {
            if (s@[0] as u32) < 128 && !is_ascii_lower(s@[0]) {
                assert(seq![s@[0]] + s@.drop_first() =~= s@);
            }
        }
        r
    }

    fn write_type_non_nullable(&mut self, of_type: &Type, fields: &Vec<Field>, nest_type: &str) -> (r:
        Result<(), GenError>)
        ensures
            final(self).extends(old(self)),
            final(self).indent == old(self).indent,
            match swift_type_required(*old(self).schema_of(), *of_type, fields@, nest_type@) {
                Some(x) => r is Ok && final(self).text() == old(self).text() + x,
                None => r is Err,
            },
        decreases of_type, 0nat,
    {
        match of_type {
            Type::NonNull(_) => Err(GenError::NestedNonNull),
            Type::String => {
                self.put("String");
                Ok(())
            },
            Type::Int => {
                self.put("Int");
                Ok(())
            },
            Type::Float => {
                self.put("Float");
                Ok(())
            },
            Type::Bool => {
                self.put("Bool");
                Ok(())
            },
            Type::Input(name) => {
                let kind = match self.schema.get(name.as_str()) {
                    Some(t) => t.kind,
                    None => return Err(GenError::UnknownType(name.clone())),
                };
                if kind == NamedTypeKind::InputObject || kind == NamedTypeKind::Scalar {
                    self.put(name.as_str());
                } else if let Some(frag) = Self::sole_fragment(fields) {
                    let t = Self::swift_name(frag.as_str());
                    self.put(t.as_str());
                } else {
                    self.put(nest_type);
                }
                Ok(())
            },
            Type::Array(elem) => {
                self.put("[");
                let r = self.write_type(elem, fields, nest_type);
                if r.is_err() {
                    return r;
                }
                self.put("]");
                assert(self.text() =~= old(self).text() + ("["@ + swift_type(
                    *old(self).schema_of(),
                    **elem,
                    fields@,
                    nest_type@,
                )->Some_0 + "]"@));
                Ok(())
            },
        }
    }

    /// Writes the generated type for a schema type: required where it is
    /// `NonNull`, optional (`?`) otherwise; object and interface types take the
    /// nested type's name, or the fragment's where the selection is one spread.
    fn write_type(&mut self, of_type: &Type, fields: &Vec<Field>, nest_type: &str) -> (r: Result<
        (),
        GenError,
    >)
        ensures
            final(self).extends(old(self)),
            final(self).indent == old(self).indent,
            match swift_type(*old(self).schema_of(), *of_type, fields@, nest_type@) {
                Some(x) => r is Ok && final(self).text() == old(self).text() + x,
                None => r is Err,
            },
        decreases of_type, 1nat,
    {
        match of_type {
            Type::NonNull(inner) => self.write_type_non_nullable(inner, fields, nest_type),
            _ => {
                self.write_type_non_nullable(of_type, fields, nest_type)?;
                self.put("?");
                assert(self.text() =~= old(self).text() + (swift_type_required(
                    *old(self).schema_of(),
                    *of_type,
                    fields@,
                    nest_type@,
                )->Some_0 + "?"@));
                Ok(())
            },
        }
    }

    fn sole_fragment(fields: &Vec<Field>) -> (r: Option<&String>)
        ensures
            match sole_fragment_of(fields@) {
                Some(n) => r matches Some(s) && s@ == n,
                None => r is None,
            },
    {
        if fields.len() == 1 {
            if let Field::Fragment(frag) = &fields[0] {
                return Some(frag);
            }
        }
        None
    }

    fn has_only_fragments(fields: &Vec<Field>) -> (r: bool)
        ensures
            r == only_fragments(fields@),
    {
        let mut k: usize = 0;
        while k < fields.len()
            invariant
                k <= fields.len(),
                forall|j: int| 0 <= j < k ==> !(#[trigger] fields@[j] is PlainField),
            decreases fields.len() - k,
        {
            if let Field::PlainField(_) = &fields[k] {
                return false;
            }
            k += 1;
        }
        true
    }

    /// Classifies a selection on `named`; a sole spread comes first.
    pub fn analyze(named: &NamedType, fields: &Vec<Field>) -> (r: TypeCase)
        ensures
            match sole_fragment_of(fields@) {
                Some(n) => r matches TypeCase::SoleFragment(s) && s@ == n,
                None => if named.kind == NamedTypeKind::Interface {
                    if only_fragments(fields@) {
                        r is InterfaceOnlyFragments
                    } else {
                        r is Interface
                    }
                } else {
                    r is Regular
                },
            },
    {
        if let Some(frag) = Self::sole_fragment(fields) {
            return TypeCase::SoleFragment(frag.clone());
        }
        if named.kind == NamedTypeKind::Interface {
            if Self::has_only_fragments(fields) {
                TypeCase::InterfaceOnlyFragments
            } else {
                TypeCase::Interface
            }
        } else {
            TypeCase::Regular
        }
    }

    fn should_gen_nested_types(fields: &Vec<Field>) -> (r: bool)
        ensures
            r == (fields.len() > 0 && sole_fragment_of(fields@) is None),
    {
        fields.len() > 0 && Self::sole_fragment(fields).is_none()
    }

    /// The cases of the sum type for a selection's branches: for each spread or
    /// inline fragment, in order, its tag and the type name its case wraps.
    pub fn possible_type_cases(&self, fields: &Vec<Field>) -> (r: Result<
        Vec<(String, String)>,
        GenError,
    >)
        ensures
            r is Err <==> !branches_resolve(*self.schema_of(), self.frags(), fields@),
            r matches Ok(cases) ==> case_views(cases@) == branch_cases(self.frags(), fields@),
    {
        let mut cases: Vec<(String, String)> = Vec::new();
        let mut k: usize = 0;
        while k < fields.len()
            invariant
                k <= fields.len(),
                forall|j: int| 0 <= j < k ==> branch_resolves(*self.schema_of(), self.frags(), #[trigger] fields@[j]),
                case_views(cases@) == branch_cases(self.frags(), fields@.subrange(0, k as int)),
            decreases fields.len() - k,
        {
            let ghost pre = fields@.subrange(0, k as int);
            let ghost now = fields@.subrange(0, k + 1);
            assert(now.drop_last() =~= pre);
            assert(now.last() == fields@[k as int]);
            let ghost before = cases@;
            match &fields[k] {
                Field::Fragment(name) => {
                    let on = match self.fragment_on(name) {
                        Some(t) => t,
                        None => {
                            proof {
                                assert(!branch_resolves(*self.schema_of(), self.frags(), fields@[k as int]));
                            }
                            return Err(GenError::UnknownType(name.clone()));
                        },
                    };
                    let t = Self::swift_name(name.as_str());
                    cases.push((on.name.clone(), t));
                },
                Field::InlineFragment(inline) => {
                    let tag = match self.schema.get_named(&inline.on) {
                        Some(t) => t.name.clone(),
                        None => {
                            return Err(GenError::UnknownType(String::from_str("inline fragment")));
                        },
                    };
                    proof {
                        schema::lemma_named_of_name(*self.schema, inline.on);
                    }
                    let of_type = match Self::sole_fragment(&inline.fields) {
                        Some(frag) => frag.clone(),
                        None => tag.clone(),
                    };
                    let t = Self::swift_name(of_type.as_str());
                    cases.push((tag, t));
                },
                Field::PlainField(_) => {},
            }
            proof {
                let frs = self.frags();
                let g = |f: Field| (branch_tag(frs, f), swift_name_of(branch_type(frs, f)));
                if fields@[k as int] is PlainField {
                    assert(branches(now) == branches(pre));
                    assert(cases@ == before);
                } else {
                    assert(branches(now) == branches(pre).push(fields@[k as int]));
                    assert(branches(pre).push(fields@[k as int]).map_values(g) =~= branches(pre).map_values(g).push(g(fields@[k as int])));
                    assert(case_views(cases@) =~= case_views(before).push((cases@.last().0@, cases@.last().1@)));
                }
                assert(case_views(cases@) =~= branch_cases(self.frags(), now));
            }
            k += 1;
        }
        assert(fields@.subrange(0, fields.len() as int) =~= fields@);
        Ok(cases)
    }

    /// The schema type that the fragment declared under `name` is on.
    fn fragment_on(&self, name: &String) -> (r: Option<&NamedType>)
        ensures
            match fragment_named(self.frags(), name@) {
                Some(fr) => r == match self.schema_of().named_of(fr.on) {
                    Some(t) => Some(&t),
                    None => None::<&NamedType>,
                } && (r matches Some(t) ==> leaf_name(fr.on) == Some(t.name@)),
                None => r is None,
            },
    {
        let mut k: usize = 0;
        assert(self.frags().subrange(0, self.frags().len() as int) =~= self.frags());
        while k < self.fragments.len()
            invariant
                k <= self.fragments.len(),
                fragment_named(self.frags(), name@) == fragment_named(
                    self.frags().subrange(k as int, self.frags().len() as int),
                    name@,
                ),
            decreases self.fragments.len() - k,
        {
            let ghost rest = self.frags().subrange(k as int, self.frags().len() as int);
            assert(rest.drop_first() =~= self.frags().subrange(k + 1, self.frags().len() as int));
            assert(rest[0] == self.frags()[k as int]);
            if same_text(self.fragments[k].name.as_str(), name.as_str()) {
                proof {
                    schema::lemma_named_of_name(*self.schema, self.fragments[k as int].on);
                }
                return self.schema.get_named(&self.fragments[k].on);
            }
            k += 1;
        }
        assert(self.frags().subrange(k as int, self.frags().len() as int) =~= Seq::<parser::Fragment>::empty());
        None
    }

    fn gen_ql_value(&mut self, value: &Value)
        ensures
            final(self).text() == old(self).text() + value_text(*value),
            final(self).extends(old(self)),
            final(self).indent == old(self).indent,
    {
        match value {
            Value::Bool(b) => {
                if *b {
                    self.put("true");
                } else {
                    self.put("false ");
                }
            },
            Value::String(s) => {
                self.put("\"");
                self.put(s.as_str());
                self.put("\"");
                assert(self.text() =~= old(self).text() + value_text(*value));
            },
            Value::Int(i) => {
                let t = decimal_text(*i);
                self.put(t.as_str());
                assert(self.text() =~= old(self).text() + value_text(*value));
            },
            Value::Variable(name) => {
                self.put("$");
                self.put(name.as_str());
                assert(self.text() =~= old(self).text() + value_text(*value));
            },
        }
    }

    fn gen_ql_type(&mut self, of_type: &Type)
        ensures
            final(self).text() == old(self).text() + ql_type_text(*of_type),
            final(self).extends(old(self)),
            final(self).indent == old(self).indent,
        decreases of_type,
    {
        match of_type {
            Type::String => self.put("String"),
            Type::Float => self.put("Float"),
            Type::Bool => self.put("Bool"),
            Type::Int => self.put("Int"),
            Type::NonNull(elem) => {
                self.gen_ql_type(elem);
                self.put("!");
                assert(self.text() =~= old(self).text() + ql_type_text(*of_type));
            },
            Type::Array(elem) => {
                self.put("[");
                self.gen_ql_type(elem);
                self.put("]");
                assert(self.text() =~= old(self).text() + ql_type_text(*of_type));
            },
            Type::Input(input) => self.put(input.as_str()),
        }
    }

    /// Writes `($a : T, $b : U)`, or nothing where there are no definitions.
    fn gen_ql_args(&mut self, args: &Vec<parser::ArgumentDef>)
        ensures
            args.len() == 0 ==> final(self).text() == old(self).text(),
            args.len() > 0 ==> final(self).text() == old(self).text() + "("@ + arg_defs_text(args@)
                + ")"@,
            final(self).extends(old(self)),
            final(self).indent == old(self).indent,
    {
        if args.len() == 0 {
            return;
        }
        self.put("(");
        let ghost base = self.text();
        let mut k: usize = 0;
        while k < args.len()
            invariant
                k <= args.len(),
                self.schema_of() == old(self).schema_of(),
                self.frags() == old(self).frags(),
                self.indent == old(self).indent,
                base == old(self).text() + "("@,
                self.text() == base + arg_defs_text(args@.subrange(0, k as int)),
            decreases args.len() - k,
        {
            let ghost before = self.text();
            if k > 0 {
                self.put(", ");
            }
            self.put("$");
            self.put(args[k].name.as_str());
            self.put(" : ");
            self.gen_ql_type(&args[k].kind);
            proof {
                let sub = args@.subrange(0, k + 1);
                assert(sub.drop_last() =~= args@.subrange(0, k as int));
                if k == 0 {
                    assert(self.text() =~= base + arg_defs_text(sub));
                } else {
                    assert(self.text() =~= base + arg_defs_text(sub));
                }
            }
            k += 1;
        }
        self.put(")");
        assert(args@.subrange(0, args.len() as int) =~= args@);
        proof {
            let x = "("@ + arg_defs_text(args@) + ")"@;
            assert(self.text() =~= old(self).text() + x);
            crate::text::lemma_prefix_append(old(self).text(), x);
        }
    }

    /// Adds `n` to `names` unless it is there already.
    fn add_name(names: &mut Vec<String>, n: &String)
        requires
            distinct_names(old(names)@),
        ensures
            distinct_names(final(names)@),
            names_set(final(names)@) == names_set(old(names)@).insert(n@),
            views(final(names)@) == if views(old(names)@).contains(n@) {
                views(old(names)@)
            } else {
                views(old(names)@).push(n@)
            },
            final(names)@.len() >= old(names)@.len(),
            final(names)@.subrange(0, old(names)@.len() as int) == old(names)@,
    {
        let mut k: usize = 0;
        while k < names.len()
            invariant
                k <= names.len(),
                names@ == old(names)@,
                distinct_names(names@),
                forall|j: int| 0 <= j < k ==> (#[trigger] names@[j])@ != n@,
            decreases names.len() - k,
        {
            if same_text(names[k].as_str(), n.as_str()) {
                assert(views(names@)[k as int] == n@);
                assert(names_set(names@).contains(n@));
                assert(names_set(names@).insert(n@) =~= names_set(names@));
                assert(names@.subrange(0, names@.len() as int) =~= names@);
                return;
            }
            k += 1;
        }
        names.push(n.clone());
        proof {
            let o = old(names)@;
            let f = names@;
            assert(f.subrange(0, o.len() as int) =~= o);
            assert forall|x: Seq<char>| names_set(f).contains(x) <==> names_set(o).insert(n@).contains(
                x,
            ) by {
                if names_set(f).contains(x) {
                    let i = choose|i: int| 0 <= i < f.len() && (#[trigger] f[i])@ == x;
                    if i < o.len() {
                        assert(o[i] == f[i]);
                    }
                }
                if names_set(o).contains(x) {
                    let i = choose|i: int| 0 <= i < o.len() && (#[trigger] o[i])@ == x;
                    assert(f[i] == o[i]);
                }
                if x == n@ {
                    assert(f[o.len() as int]@ == x);
                }
            }
            assert(names_set(f) =~= names_set(o).insert(n@));
            assert(!views(o).contains(n@)) by {
                if views(o).contains(n@) {
                    let i = choose|i: int| 0 <= i < views(o).len() && views(o)[i] == n@;
                    assert(o[i]@ == n@);
                }
            }
            assert(views(f) =~= views(o).push(n@));
        }
    }

    /// Collects into `fragments` every fragment spread in `fields`, through
    /// nested selections, each name once, in order of first appearance.
    fn find_fragments(fragments: &mut Vec<String>, fields: &Vec<Field>)
        requires
            distinct_names(old(fragments)@),
        ensures
            distinct_names(final(fragments)@),
            names_set(final(fragments)@) == names_set(old(fragments)@).union(
                selection_fragments(fields@),
            ),
            final(fragments)@.len() >= old(fragments)@.len(),
            final(fragments)@.subrange(0, old(fragments)@.len() as int) == old(fragments)@,
            views(final(fragments)@) == collect(views(old(fragments)@), fields@),
        decreases fields,
    {
        let mut k: usize = 0;
        while k < fields.len()
            invariant
                k <= fields.len(),
                distinct_names(fragments@),
                names_set(fragments@) == names_set(old(fragments)@).union(
                    selection_fragments(fields@.subrange(0, k as int)),
                ),
                fragments@.len() >= old(fragments)@.len(),
                fragments@.subrange(0, old(fragments)@.len() as int) == old(fragments)@,
                views(fragments@) == collect(views(old(fragments)@), fields@.subrange(0, k as int)),
            decreases fields.len() - k,
        {
            let ghost before = fragments@;
            proof {
                assert(fields@.subrange(0, k + 1).drop_last() =~= fields@.subrange(0, k as int));
                assert(fields@.subrange(0, k + 1).last() == fields@[k as int]);
                assert(selection_fragments(fields@.subrange(0, k + 1)) == selection_fragments(
                    fields@.subrange(0, k as int),
                ).union(field_fragments(fields@[k as int])));
                assert(collect(views(old(fragments)@), fields@.subrange(0, k + 1)) == collect_field(
                    collect(views(old(fragments)@), fields@.subrange(0, k as int)),
                    fields@[k as int],
                ));
            }
            match &fields[k] {
                Field::PlainField(p) => {
                    proof {
                        assert(decreases_to!(fields => fields@[k as int]));
                    }
                    Self::find_fragments(fragments, &p.fields);
                },
                Field::InlineFragment(i) => {
                    proof {
                        assert(decreases_to!(fields => fields@[k as int]));
                    }
                    Self::find_fragments(fragments, &i.fields);
                },
                Field::Fragment(on) => {
                    Self::add_name(fragments, on);
                    assert(set![on@] =~= Set::<Seq<char>>::empty().insert(on@));
                },
            }
            proof {
                assert(fragments@.subrange(0, old(fragments)@.len() as int) =~= fragments@.subrange(
                    0,
                    before.len() as int,
                ).subrange(0, old(fragments)@.len() as int));
                assert(names_set(fragments@) == names_set(before).union(
                    field_fragments(fields@[k as int]),
                ));
                assert(names_set(fragments@) =~= names_set(old(fragments)@).union(
                    selection_fragments(fields@.subrange(0, k + 1)),
                ));
            }
            k += 1;
        }
        assert(fields@.subrange(0, fields.len() as int) =~= fields@);
    }

    /// Writes the list of fragments that `fields` depends on: `["A","B"]`,
    /// each name once.
    fn gen_dependent_fragments(&mut self, fields: &Vec<Field>) -> (names: Vec<String>)
        ensures
            views(names@) == dependency_list(fields@),
            final(self).indent == old(self).indent,
            distinct_names(names@),
            names_set(names@) == selection_fragments(fields@),
            final(self).text() == old(self).text() + "["@ + quoted_list(views(names@)) + "]"@,
            final(self).extends(old(self)),
    {
        let mut fragments: Vec<String> = Vec::new();
        assert(views(fragments@) =~= Seq::<Seq<char>>::empty());
        Self::find_fragments(&mut fragments, fields);
        assert(names_set(Seq::<String>::empty()) =~= Set::<Seq<char>>::empty());
        assert(names_set(fragments@) =~= selection_fragments(fields@));
        self.put("[");
        let ghost base = self.text();
        let mut k: usize = 0;
        while k < fragments.len()
            invariant
                k <= fragments.len(),
                self.schema_of() == old(self).schema_of(),
                self.frags() == old(self).frags(),
                self.indent == old(self).indent,
                base == old(self).text() + "["@,
                self.text() == base + quoted_list(views(fragments@.subrange(0, k as int))),
            decreases fragments.len() - k,
        {
            if k > 0 {
                self.put(",");
            }
            self.put("\"");
            self.put(fragments[k].as_str());
            self.put("\"");
            proof {
                let sub = views(fragments@.subrange(0, k + 1));
                assert(sub.drop_last() =~= views(fragments@.subrange(0, k as int)));
                assert(sub.last() == fragments@[k as int]@);
                assert(self.text() =~= base + quoted_list(sub));
            }
            k += 1;
        }
        self.put("]");
        assert(fragments@.subrange(0, fragments.len() as int) =~= fragments@);
        proof {
            let x = "["@ + quoted_list(views(fragments@)) + "]"@;
            assert(self.text() =~= old(self).text() + x);
            crate::text::lemma_prefix_append(old(self).text(), x);
        }
        fragments
    }

    #[verifier::rlimit(80)]
    #[verifier::spinoff_prover]
    fn gen_type_def(&mut self, kind: &str, name: &str, is_identifiable: bool)
        ensures
            final(self).extends(old(self)),
            final(self).text() == old(self).text() + type_def_text(kind@, name@, is_identifiable),
            old(self).indent < usize::MAX ==> final(self).indent == old(self).indent + 1,
    {
        self.put(kind);
        self.put(" ");
        let t = Self::swift_name(name);
        self.put(t.as_str());
        self.put(" : Decodable");
        if is_identifiable {
            self.put(", Identifiable");
        }
        self.opening_brace();
        assert(self.text() =~= old(self).text() + type_def_text(kind@, name@, is_identifiable));
    }

    fn has_id_field(fields: &Vec<Field>) -> (r: bool)
        ensures
            r == has_id_selected(fields@),
    {
        let mut k: usize = 0;
        while k < fields.len()
            invariant
                k <= fields.len(),
                forall|j: int|
                    0 <= j < k && #[trigger] fields@[j] is PlainField ==> fields@[j]->PlainField_0.name@
                        != "id"@,
            decreases fields.len() - k,
        {
            if let Field::PlainField(f) = &fields[k] {
                if same_text(f.name.as_str(), "id") {
                    return true;
                }
            }
            k += 1;
        }
        false
    }

    /// Writes one line per case at the current indentation.
    #[verifier::rlimit(80)]
    #[verifier::spinoff_prover]
    fn case_lines(&mut self, cases: &Vec<(String, String)>, arm: u8)
        ensures
            final(self).text() == old(self).text() + case_lines_text(
                arm,
                case_views(cases@),
                old(self).indent as nat,
            ),
            final(self).extends(old(self)),
            final(self).indent == old(self).indent,
    {
        let ghost cs = case_views(cases@);
        let ghost n = self.indent as nat;
        let mut k: usize = 0;
        while k < cases.len()
            invariant
                k <= cases.len(),
                cs == case_views(cases@),
                n == old(self).indent as nat,
                self.indent == old(self).indent,
                self.schema_of() == old(self).schema_of(),
                self.frags() == old(self).frags(),
                self.text() == old(self).text() + case_lines_text(arm, cs.subrange(0, k as int), n),
            decreases cases.len() - k,
        {
            let ghost before = self.text();
            self.newline();
            let tag = cases[k].0.as_str();
            let ty = cases[k].1.as_str();
            if arm == 0 {
                self.put("case As");
                self.put(tag);
                self.put("(");
                self.put(ty);
                self.put(")");
            } else if arm == 1 {
                self.put("case let .As");
                self.put(tag);
                self.put("(value) : return value.id");
            } else {
                self.put("case \"");
                self.put(tag);
                self.put("\" : self = .As");
                self.put(tag);
                self.put("(try ");
                self.put(ty);
                self.put("(from: decoder))");
            }
            proof {
                let sub = cs.subrange(0, k + 1);
                assert(sub.drop_last() =~= cs.subrange(0, k as int));
                assert(sub.last() == (cases@[k as int].0@, cases@[k as int].1@));
                assert(self.text() =~= old(self).text() + case_lines_text(arm, sub, n));
            }
            k += 1;
        }
        assert(cs.subrange(0, cases.len() as int) =~= cs);
        proof {
            crate::text::lemma_prefix_append(old(self).text(), case_lines_text(arm, cs, n));
        }
    }

    #[verifier::rlimit(80)]
    #[verifier::spinoff_prover]
    fn gen_enum_head(&mut self, name: &str, is_identifiable: bool)
        requires
            old(self).indent < usize::MAX,
        ensures
            final(self).text() == old(self).text() + enum_head(name@, is_identifiable, old(self).indent as nat),
            final(self).extends(old(self)),
            final(self).indent == old(self).indent + 1,
    {
        let ghost n = self.indent as nat;
        self.newline();
        self.put("enum ");
        let t = Self::swift_name(name);
        self.put(t.as_str());
        self.put(" : Decodable");
        if is_identifiable {
            self.put(", Identifiable");
        }
        self.opening_brace();
        assert(self.text() =~= old(self).text() + enum_head(name@, is_identifiable, n));
    }

    #[verifier::rlimit(80)]
    #[verifier::spinoff_prover]
    fn gen_id_forwarding(&mut self, cases: &Vec<(String, String)>)
        requires
            old(self).indent < usize::MAX - 2,
        ensures
            final(self).text() == old(self).text() + id_text(case_views(cases@), old(self).indent as nat),
            final(self).extends(old(self)),
            final(self).indent == old(self).indent,
    {
        let ghost n = self.indent as nat;
        self.newline();
        self.put("var id : Int ");
        self.opening_brace();
        self.newline();
        self.put("switch self");
        self.opening_brace();
        self.case_lines(cases, 1);
        self.closing_brace();
        self.closing_brace();
        assert(self.text() =~= old(self).text() + id_text(case_views(cases@), n));
    }

    #[verifier::rlimit(80)]
    #[verifier::spinoff_prover]
    fn gen_case_decoder(&mut self, cases: &Vec<(String, String)>)
        requires
            old(self).indent < usize::MAX - 2,
        ensures
            final(self).text() == old(self).text() + decoder_text(case_views(cases@), old(self).indent as nat),
            final(self).extends(old(self)),
            final(self).indent == old(self).indent,
    {
        let ghost n = self.indent as nat;
        let ghost cs = case_views(cases@);
        self.newline();
        self.put("init(from decoder: Decoder) throws");
        self.opening_brace();
        self.newline();
        self.put("let container = try decoder.container(keyedBy: TypenameKeys.self)");
        self.newline();
        self.put("switch try container.decode(String.self, forKey: .__typename)");
        self.opening_brace();
        let ghost a = self.text();
        assert(a =~= old(self).text() + (line_break(n) + "init(from decoder: Decoder) throws"@ + " {"@
            + line_break(n + 1) + "let container = try decoder.container(keyedBy: TypenameKeys.self)"@
            + line_break(n + 1) + "switch try container.decode(String.self, forKey: .__typename)"@
            + " {"@));
        self.case_lines(cases, 2);
        self.newline();
        self.put("default: throw UnknownTypename()");
        let ghost b = self.text();
        assert(b =~= a + (case_lines_text(2, cs, n + 2) + line_break(n + 2)
            + "default: throw UnknownTypename()"@));
        self.closing_brace();
        self.closing_brace();
        assert(self.text() =~= b + (line_break(n + 1) + "}"@ + line_break(n) + "}"@));
        assert(self.text() =~= old(self).text() + decoder_text(cs, n));
    }

    /// The sum type over a selection's branches: one case per spread or inline
    /// fragment, tagged `As<Tag>`, and a decoder that picks the case by
    /// `__typename` and fails on any other value. An interface with an `id`
    /// field also gets an `id` that forwards to the case's value.
    #[verifier::rlimit(80)]
    #[verifier::spinoff_prover]
    fn gen_enum_for_possible_types(&mut self, object_type: &NamedType, name: &str, fields: &Vec<
        Field,
    >) -> (r: Result<(), GenError>)
        requires
            old(self).indent < usize::MAX - 3,
        ensures
            final(self).extends(old(self)),
            r is Ok ==> final(self).indent == old(self).indent && final(self).text() == old(
                self,
            ).text() + enum_text(
                name@,
                schema::find_field(object_type.fields@, "id"@) is Some,
                branch_cases(old(self).frags(), fields@),
                old(self).indent as nat,
            ),
            r is Err <==> !branches_resolve(*old(self).schema_of(), old(self).frags(), fields@),
    {
        let ghost n = self.indent as nat;
        let is_identifiable = object_type.field("id").is_some();
        let cases = self.possible_type_cases(fields)?;
        let ghost cs = case_views(cases@);
        self.gen_enum_head(name, is_identifiable);
        self.case_lines(&cases, 0);
        let ghost t2 = self.text();
        if is_identifiable {
            self.gen_id_forwarding(&cases);
        }
        let ghost t3 = self.text();
        assert(t3 =~= t2 + (if is_identifiable { id_text(cs, n + 1) } else { seq![] }));
        self.gen_case_decoder(&cases);
        let ghost t4 = self.text();
        self.closing_brace();
        self.newline();
        proof {
            assert(self.text() =~= t4 + (line_break(n) + "}"@ + line_break(n)));
            assert(self.text() =~= old(self).text() + enum_text(name@, is_identifiable, cs, n));
        }
        Ok(())
    }

    /// The coding keys of an interface type with plain fields.
    #[verifier::rlimit(80)]
    #[verifier::spinoff_prover]
    fn gen_coding_keys(&mut self, fields: &Vec<Field>)
        requires
            old(self).indent < usize::MAX,
        ensures
            final(self).extends(old(self)),
            final(self).indent == old(self).indent,
            final(self).text() == old(self).text() + line_break(old(self).indent as nat)
                + "enum CodingKeys : String, CodingKey"@ + " {"@ + line_break(
                old(self).indent as nat + 1,
            ) + "case __typename"@ + coding_keys(fields@) + line_break(old(self).indent as nat)
                + "}"@,
    {
        let ghost n = self.indent as nat;
        self.newline();
        self.put("enum CodingKeys : String, CodingKey");
        self.opening_brace();
        self.newline();
        self.put("case __typename");
        let ghost base = self.text();
        let mut k: usize = 0;
        while k < fields.len()
            invariant
                k <= fields.len(),
                self.schema_of() == old(self).schema_of(),
                self.frags() == old(self).frags(),
                self.indent == n + 1,
                n == old(self).indent as nat,
                self.text() == base + coding_keys(fields@.subrange(0, k as int)),
            decreases fields.len() - k,
        {
            proof {
                assert(fields@.subrange(0, k + 1).drop_last() =~= fields@.subrange(0, k as int));
            }
            if let Field::PlainField(field) = &fields[k] {
                self.put(", ");
                self.put(field.name.as_str());
            }
            assert(self.text() =~= base + coding_keys(fields@.subrange(0, k + 1)));
            k += 1;
        }
        assert(fields@.subrange(0, fields.len() as int) =~= fields@);
        self.closing_brace();
        proof {
            let x = line_break(n) + "enum CodingKeys : String, CodingKey"@ + " {"@ + line_break(n + 1)
                + "case __typename"@ + coding_keys(fields@) + line_break(n) + "}"@;
            assert(self.text() =~= old(self).text() + x);
            crate::text::lemma_prefix_append(old(self).text(), x);
        }
    }

    /// Decoding statements for the plain fields, one per line.
    #[verifier::rlimit(80)]
    #[verifier::spinoff_prover]
    fn gen_decode_lines(&mut self, object_type: &NamedType, fields: &Vec<Field>) -> (r: Result<
        (),
        GenError,
    >)
        ensures
            final(self).extends(old(self)),
            final(self).indent == old(self).indent,
            match decode_lines(*old(self).schema_of(), *object_type, fields@, old(self).indent as nat) {
                Some(x) => r is Ok && final(self).text() == old(self).text() + x,
                None => r is Err,
            },
    {
        let ghost s = *self.schema_of();
        let ghost n = self.indent as nat;
        let mut k: usize = 0;
        while k < fields.len()
            invariant
                k <= fields.len(),
                self.schema_of() == old(self).schema_of(),
                self.frags() == old(self).frags(),
                s == *old(self).schema_of(),
                self.indent == old(self).indent,
                n == old(self).indent as nat,
                decode_lines(s, *object_type, fields@.subrange(0, k as int), n) == Some(
                    self.text().subrange(old(self).text().len() as int, self.text().len() as int),
                ),
                is_prefix(old(self).text(), self.text()),
            decreases fields.len() - k,
        {
            let ghost before = self.text();
            proof {
                assert(fields@.subrange(0, k + 1).drop_last() =~= fields@.subrange(0, k as int));
                assert(fields@.subrange(0, k + 1).last() == fields@[k as int]);
            }
            if let Field::PlainField(field) = &fields[k] {
                let schema_field = match object_type.field(field.name.as_str()) {
                    Some(f) => f,
                    None => {
                        proof {
                            lemma_decode_lines_fail(s, *object_type, fields@, k as int, n);
                        }
                        return Err(GenError::UnknownField(field.name.clone()));
                    },
                };
                self.newline();
                self.put("self.");
                self.put(field.name.as_str());
                self.put(" = try container.decode(");
                let nest_type = Self::swift_name(field.name.as_str());
                let w = self.write_type(&schema_field.of_type, &field.fields, nest_type.as_str());
                if w.is_err() {
                    proof {
                        lemma_decode_lines_fail(s, *object_type, fields@, k as int, n);
                    }
                    return w;
                }
                self.put(".self, forKey: .");
                self.put(field.name.as_str());
                self.put(")");
            }
            proof {
                let line = self.text().subrange(before.len() as int, self.text().len() as int);
                assert(self.text() =~= before + line);
                assert(decode_line(s, *object_type, fields@[k as int], n) == Some(line));
                assert(self.text().subrange(old(self).text().len() as int, self.text().len() as int)
                    =~= before.subrange(old(self).text().len() as int, before.len() as int) + line);
            }
            k += 1;
        }
        assert(fields@.subrange(0, fields.len() as int) =~= fields@);
        assert(self.text() =~= old(self).text() + self.text().subrange(
            old(self).text().len() as int,
            self.text().len() as int,
        ));
        Ok(())
    }

    #[verifier::rlimit(80)]
    #[verifier::spinoff_prover]
    fn gen_decoder_open(&mut self)
        requires
            old(self).indent < usize::MAX,
        ensures
            final(self).extends(old(self)),
            final(self).indent == old(self).indent + 1,
            final(self).text() == old(self).text() + (line_break(old(self).indent as nat)
                + "init(from decoder: Decoder) throws"@ + " {"@ + line_break(old(self).indent as nat + 1)
                + "let container = try decoder.container(keyedBy: CodingKeys.self)"@),
    {
        self.newline();
        self.put("init(from decoder: Decoder) throws");
        self.opening_brace();
        self.newline();
        self.put("let container = try decoder.container(keyedBy: CodingKeys.self)");
        assert(self.text() =~= old(self).text() + (line_break(old(self).indent as nat)
            + "init(from decoder: Decoder) throws"@ + " {"@ + line_break(old(self).indent as nat + 1)
            + "let container = try decoder.container(keyedBy: CodingKeys.self)"@));
    }

    #[verifier::rlimit(80)]
    #[verifier::spinoff_prover]
    fn gen_decoder_close(&mut self)
        requires
            old(self).indent > 0,
        ensures
            final(self).extends(old(self)),
            final(self).indent == old(self).indent - 1,
            final(self).text() == old(self).text() + (line_break(old(self).indent as nat)
                + "self.kind = try Types(from: decoder)"@ + line_break((old(self).indent - 1) as nat) + "}"@),
    {
        self.newline();
        self.put("self.kind = try Types(from: decoder)");
        let ghost mid = self.text();
        assert(mid =~= old(self).text() + line_break(old(self).indent as nat)
            + "self.kind = try Types(from: decoder)"@);
        self.closing_brace();
        assert(self.text() =~= old(self).text() + (line_break(old(self).indent as nat)
            + "self.kind = try Types(from: decoder)"@ + line_break((old(self).indent - 1) as nat) + "}"@));
    }

    /// Decoding for an interface with plain fields: each plain field by its
    /// key, then the `Types` sum type from the same input.
    #[verifier::rlimit(80)]
    #[verifier::spinoff_prover]
    fn gen_custom_interface_decoding(&mut self, object_type: &NamedType, fields: &Vec<Field>) -> (r:
        Result<(), GenError>)
        requires
            old(self).indent < usize::MAX,
        ensures
            final(self).extends(old(self)),
            match custom_decoding_text(*old(self).schema_of(), *object_type, fields@, old(self).indent as nat) {
                Some(x) => r is Ok && final(self).text() == old(self).text() + x
                    && final(self).indent == old(self).indent,
                None => r is Err,
            },
    {
        let ghost n = self.indent as nat;
        let ghost sch = *self.schema_of();
        self.gen_coding_keys(fields);
        self.gen_decoder_open();
        let ghost before = self.text();
        self.gen_decode_lines(object_type, fields)?;
        let ghost after = self.text();
        let ghost d = after.subrange(before.len() as int, after.len() as int);
        assert(after =~= before + d);
        assert(decode_lines(sch, *object_type, fields@, n + 1) == Some(d));
        self.gen_decoder_close();
        assert(self.text() =~= old(self).text() + custom_decoding_text(sch, *object_type, fields@, n)->Some_0);
        Ok(())
    }

    /// Generates the nested types that the fields of a selection need.
    #[verifier::rlimit(80)]
    #[verifier::spinoff_prover]
    fn gen_type_for_fields(&mut self, object_type: &NamedType, fields: &Vec<
        Field,
    >) -> (r: Result<(), GenError>)
        requires
            old(self).indent + selection_depth(fields@) + 7 < usize::MAX,
        ensures
            final(self).extends(old(self)),
            match nested_types(*old(self).schema_of(), old(self).frags(), *object_type, fields@, old(self).indent as nat) {
                Some(x) => r is Ok && final(self).text() == old(self).text() + x
                    && final(self).indent == old(self).indent,
                None => r is Err,
            },
        decreases fields, 0nat,
    {
        let ghost sch = *self.schema_of();
        let ghost n = self.indent as nat;
        let ghost start = self.text();
        assert(fields@.subrange(0, fields@.len() as int) =~= fields@);
        let mut k: usize = 0;
        while k < fields.len()
            invariant
                old(self).indent + selection_depth(fields@) + 7 < usize::MAX,
                k <= fields.len(),
                self.schema_of() == old(self).schema_of(),
                self.frags() == old(self).frags(),
                sch == *old(self).schema_of(),
                n == old(self).indent as nat,
                self.indent == old(self).indent,
                start == old(self).text(),
                is_prefix(start, self.text()),
                nested_types(sch, self.frags(), *object_type, fields@, n) == join(
                    Some(self.text().subrange(start.len() as int, self.text().len() as int)),
                    nested_types(sch, self.frags(), *object_type, fields@.subrange(k as int, fields@.len() as int), n),
                ),
            decreases fields.len() - k,
        {
            proof {
                assert(decreases_to!(fields => fields@[k as int]));
            }
            let ghost before = self.text();
            let ghost rest = fields@.subrange(k as int, fields@.len() as int);
            proof {
                assert(rest[0] == fields@[k as int]);
                assert(rest.drop_first() =~= fields@.subrange(k + 1, fields@.len() as int));
            }
            match &fields[k] {
                Field::PlainField(field) => {
                    if Self::should_gen_nested_types(&field.fields) {
                        let named = match self.schema.get_type_of_field(
                            object_type,
                            field.name.as_str(),
                        ) {
                            Some(t) => t,
                            None => return Err(GenError::UnknownField(field.name.clone())),
                        };
                        proof {
                            lemma_field_depth(fields@, k as int);
                        }
                        let g = self.gen_type_for(named, field.name.as_str(), &field.fields);
                        if g.is_err() {
                            return Err(g.unwrap_err());
                        }
                    }
                },
                Field::InlineFragment(inline) => {
                    let on_type = match self.schema.get_named(&inline.on) {
                        Some(t) => t,
                        None => return Err(GenError::UnknownType(String::from_str("inline fragment"))),
                    };
                    proof {
                        schema::lemma_named_of_name(sch, inline.on);
                        lemma_field_depth(fields@, k as int);
                    }
                    let g = self.gen_type_for(on_type, on_type.name.as_str(), &inline.fields);
                    if g.is_err() {
                        return Err(g.unwrap_err());
                    }
                },
                Field::Fragment(_) => {},
            }
            proof {
                let piece = self.text().subrange(before.len() as int, self.text().len() as int);
                assert(self.text() =~= before + piece);
                assert(self.text().subrange(start.len() as int, self.text().len() as int) =~= before.subrange(
                    start.len() as int,
                    before.len() as int,
                ) + piece);
            }
            k += 1;
        }
        proof {
            assert(fields@.subrange(fields@.len() as int, fields@.len() as int) =~= Seq::<Field>::empty());
            assert(self.text() =~= start + self.text().subrange(start.len() as int, self.text().len() as int));
        }
        Ok(())
    }

    /// The sum type for an interface selected only through fragments.
    #[verifier::rlimit(80)]
    #[verifier::spinoff_prover]
    fn gen_sum_type_decl(&mut self, object_type: &NamedType, name: &str, fields: &Vec<Field>) -> (r:
        Result<(), GenError>)
        requires
            old(self).indent + selection_depth(fields@) + 8 < usize::MAX,
            sole_fragment_of(fields@) is None,
            object_type.kind == NamedTypeKind::Interface,
            only_fragments(fields@),
        ensures
            final(self).extends(old(self)),
            match type_decl(*old(self).schema_of(), old(self).frags(), *object_type, name@, fields@, old(self).indent as nat) {
                Some(x) => r is Ok && final(self).text() == old(self).text() + x
                    && final(self).indent == old(self).indent,
                None => r is Err,
            },
        decreases fields, 1nat,
    {
        let ghost n = self.indent as nat;
        self.newline();
        self.gen_enum_for_possible_types(object_type, name, fields)?;
        let ghost a = self.text();
        assert(a =~= old(self).text() + (line_break(n) + enum_text(
            name@,
            schema::find_field(object_type.fields@, "id"@) is Some,
            branch_cases(self.frags(), fields@),
            n,
        )));
        self.gen_type_for_fields(object_type, fields)?;
        proof {
            let x = self.text().subrange(a.len() as int, self.text().len() as int);
            assert(self.text() =~= a + x);
        }
        Ok(())
    }

    /// The product type for an interface selected with plain fields too.
    #[verifier::rlimit(80)]
    #[verifier::spinoff_prover]
    fn gen_interface_decl(&mut self, object_type: &NamedType, name: &str, fields: &Vec<Field>) -> (r:
        Result<(), GenError>)
        requires
            old(self).indent + selection_depth(fields@) + 8 < usize::MAX,
            sole_fragment_of(fields@) is None,
            object_type.kind == NamedTypeKind::Interface,
            !only_fragments(fields@),
        ensures
            final(self).extends(old(self)),
            match type_decl(*old(self).schema_of(), old(self).frags(), *object_type, name@, fields@, old(self).indent as nat) {
                Some(x) => r is Ok && final(self).text() == old(self).text() + x
                    && final(self).indent == old(self).indent,
                None => r is Err,
            },
        decreases fields, 1nat,
    {
        let ghost n = self.indent as nat;
        let ghost sch = *self.schema_of();
        self.newline();
        let id = Self::has_id_field(fields);
        self.gen_type_def("struct", name, id);
        self.gen_enum_for_possible_types(object_type, "Types", fields)?;
        let ghost b = self.text();
        self.gen_type_for_fields(object_type, fields)?;
        let ghost c = self.text();
        self.gen_fields(object_type, fields)?;
        let ghost d = self.text();
        self.gen_custom_interface_decoding(object_type, fields)?;
        let ghost e = self.text();
        self.closing_brace();
        proof {
            let x1 = c.subrange(b.len() as int, c.len() as int);
            let x2 = d.subrange(c.len() as int, d.len() as int);
            let x3 = e.subrange(d.len() as int, e.len() as int);
            assert(c =~= b + x1);
            assert(d =~= c + x2);
            assert(e =~= d + x3);
            assert(join(join(nested_types(sch, self.frags(), *object_type, fields@, n + 1), properties_text(sch, *object_type, fields@, n + 1)),
                custom_decoding_text(sch, *object_type, fields@, n + 1)) == Some(x1 + x2 + x3));
            assert(self.text() =~= old(self).text() + (line_break(n) + type_def_text(
                "struct"@,
                name@,
                has_id_selected(fields@),
            ) + enum_text(
                "Types"@,
                schema::find_field(object_type.fields@, "id"@) is Some,
                branch_cases(self.frags(), fields@),
                n + 1,
            ) + (x1 + x2 + x3) + line_break(n) + "}"@));
        }
        Ok(())
    }

    /// The product type for any other selection.
    #[verifier::rlimit(80)]
    #[verifier::spinoff_prover]
    fn gen_struct_decl(&mut self, object_type: &NamedType, name: &str, fields: &Vec<Field>) -> (r:
        Result<(), GenError>)
        requires
            old(self).indent + selection_depth(fields@) + 8 < usize::MAX,
            sole_fragment_of(fields@) is None,
            object_type.kind != NamedTypeKind::Interface,
        ensures
            final(self).extends(old(self)),
            match type_decl(*old(self).schema_of(), old(self).frags(), *object_type, name@, fields@, old(self).indent as nat) {
                Some(x) => r is Ok && final(self).text() == old(self).text() + x
                    && final(self).indent == old(self).indent,
                None => r is Err,
            },
        decreases fields, 1nat,
    {
        let ghost n = self.indent as nat;
        let ghost sch = *self.schema_of();
        self.newline();
        let id = Self::has_id_field(fields);
        self.gen_type_def("struct", name, id);
        let ghost a = self.text();
        self.gen_type_for_fields(object_type, fields)?;
        let ghost b = self.text();
        self.gen_fields(object_type, fields)?;
        let ghost c = self.text();
        self.closing_brace();
        proof {
            let x1 = b.subrange(a.len() as int, b.len() as int);
            let x2 = c.subrange(b.len() as int, c.len() as int);
            assert(b =~= a + x1);
            assert(c =~= b + x2);
            assert(join(nested_types(sch, self.frags(), *object_type, fields@, n + 1), properties_text(sch, *object_type, fields@, n + 1))
                == Some(x1 + x2));
            assert(self.text() =~= old(self).text() + (line_break(n) + type_def_text(
                "struct"@,
                name@,
                has_id_selected(fields@),
            ) + (x1 + x2) + line_break(n) + "}"@));
        }
        Ok(())
    }

    /// Generates the type for a selection on `object_type`, named after
    /// `name`, and returns the name that refers to it. A selection that is one
    /// fragment spread generates nothing and refers to the fragment's type.
    fn gen_type_for(&mut self, object_type: &NamedType, name: &str, fields: &Vec<Field>) -> (r:
        Result<String, GenError>)
        requires
            old(self).indent + selection_depth(fields@) + 8 < usize::MAX,
        ensures
            final(self).extends(old(self)),
            sole_fragment_of(fields@) matches Some(n) ==> r matches Ok(s) && s@ == n
                && final(self).text() == old(self).text(),
            sole_fragment_of(fields@) is None ==> (r matches Ok(s) ==> s@ == name@),
            match type_decl(*old(self).schema_of(), old(self).frags(), *object_type, name@, fields@, old(self).indent as nat) {
                Some(x) => r is Ok && final(self).text() == old(self).text() + x
                    && final(self).indent == old(self).indent,
                None => r is Err,
            },
        decreases fields, 2nat,
    {
        let case = Self::analyze(object_type, fields);
        if let TypeCase::SoleFragment(frag) = case {
            return Ok(frag);
        }
        match case {
            TypeCase::SoleFragment(frag) => {
                return Ok(frag);
            },
            TypeCase::InterfaceOnlyFragments => {
                self.gen_sum_type_decl(object_type, name, fields)?;
            },
            TypeCase::Interface => {
                self.gen_interface_decl(object_type, name, fields)?;
            },
            TypeCase::Regular => {
                self.gen_struct_decl(object_type, name, fields)?;
            },
        }
        Ok(String::from_str(name))
    }

    /// The stored properties of a product type: one per plain field, one per
    /// spread fragment (typed as that fragment), and `kind` for an interface.
    #[verifier::rlimit(80)]
    #[verifier::spinoff_prover]
    fn gen_fields(&mut self, object_type: &NamedType, fields: &Vec<Field>) -> (r: Result<
        (),
        GenError,
    >)
        ensures
            final(self).extends(old(self)),
            final(self).indent == old(self).indent,
            match properties_text(*old(self).schema_of(), *object_type, fields@, old(self).indent as nat) {
                Some(x) => r is Ok && final(self).text() == old(self).text() + x,
                None => r is Err,
            },
    {
        let ghost s = *self.schema_of();
        let ghost n = self.indent as nat;
        let is_interface = object_type.kind == NamedTypeKind::Interface;
        let mut k: usize = 0;
        while k < fields.len()
            invariant
                k <= fields.len(),
                self.schema_of() == old(self).schema_of(),
                self.frags() == old(self).frags(),
                s == *old(self).schema_of(),
                self.indent == old(self).indent,
                n == old(self).indent as nat,
                is_interface == (object_type.kind == NamedTypeKind::Interface),
                property_lines(s, *object_type, fields@.subrange(0, k as int), n) == Some(
                    self.text().subrange(old(self).text().len() as int, self.text().len() as int),
                ),
                is_prefix(old(self).text(), self.text()),
            decreases fields.len() - k,
        {
            let ghost before = self.text();
            proof {
                assert(fields@.subrange(0, k + 1).drop_last() =~= fields@.subrange(0, k as int));
                assert(fields@.subrange(0, k + 1).last() == fields@[k as int]);
            }
            match &fields[k] {
                Field::PlainField(field) => {
                    let schema_field = match object_type.field(field.name.as_str()) {
                        Some(f) => f,
                        None => {
                            proof {
                                lemma_property_lines_fail(s, *object_type, fields@, k as int, n);
                            }
                            return Err(GenError::UnknownField(field.name.clone()));
                        },
                    };
                    self.newline();
                    self.put("var ");
                    self.put(field.name.as_str());
                    self.put(" : ");
                    let nest_type = Self::swift_name(field.name.as_str());
                    let w = self.write_type(&schema_field.of_type, &field.fields, nest_type.as_str());
                    if w.is_err() {
                        proof {
                            lemma_property_lines_fail(s, *object_type, fields@, k as int, n);
                        }
                        return w;
                    }
                },
                Field::InlineFragment(_) => {},
                Field::Fragment(frag) => {
                    if !is_interface {
                        self.newline();
                        self.put("var ");
                        self.put(frag.as_str());
                        self.put(" : ");
                        let t = Self::swift_name(frag.as_str());
                        self.put(t.as_str());
                    }
                },
            }
            proof {
                let line = self.text().subrange(before.len() as int, self.text().len() as int);
                assert(self.text() =~= before + line);
                assert(property_line(s, *object_type, fields@[k as int], n) == Some(line));
                assert(self.text().subrange(old(self).text().len() as int, self.text().len() as int)
                    =~= before.subrange(old(self).text().len() as int, before.len() as int) + line);
            }
            k += 1;
        }
        assert(fields@.subrange(0, fields.len() as int) =~= fields@);
        let ghost props = self.text();
        if is_interface {
            self.newline();
            self.put("var kind : Types");
        }
        proof {
            let x = props.subrange(old(self).text().len() as int, props.len() as int);
            assert(props =~= old(self).text() + x);
            assert(self.text() =~= old(self).text() + properties_text(s, *object_type, fields@, n)->Some_0);
        }
        Ok(())
    }

    /// A stored property for each argument definition of an operation.
    #[verifier::rlimit(80)]
    #[verifier::spinoff_prover]
    fn gen_args(&mut self, args: &Vec<parser::ArgumentDef>) -> (r: Result<(), GenError>)
        ensures
            final(self).extends(old(self)),
            final(self).indent == old(self).indent,
            match arg_props(*old(self).schema_of(), args@, old(self).indent as nat) {
                Some(x) => r is Ok && final(self).text() == old(self).text() + x,
                None => r is Err,
            },
    {
        let ghost sch = *self.schema_of();
        let ghost n = self.indent as nat;
        let none: Vec<Field> = Vec::new();
        let mut k: usize = 0;
        while k < args.len()
            invariant
                k <= args.len(),
                none@ == Seq::<Field>::empty(),
                self.schema_of() == old(self).schema_of(),
                self.frags() == old(self).frags(),
                sch == *old(self).schema_of(),
                n == old(self).indent as nat,
                self.indent == old(self).indent,
                is_prefix(old(self).text(), self.text()),
                arg_props(sch, args@.subrange(0, k as int), n) == Some(
                    self.text().subrange(old(self).text().len() as int, self.text().len() as int),
                ),
            decreases args.len() - k,
        {
            let ghost before = self.text();
            let ghost sub = args@.subrange(0, k + 1);
            proof {
                assert(sub.drop_last() =~= args@.subrange(0, k as int));
                assert(sub.last() == args@[k as int]);
                assert(""@ =~= Seq::<char>::empty()) by {
                    reveal_strlit("");
                }
            }
            self.put("var ");
            self.put(args[k].name.as_str());
            self.put(" : ");
            let w = self.write_type(&args[k].kind, &none, "");
            if w.is_err() {
                proof {
                    lemma_arg_props_fail(sch, args@, k as int, n);
                }
                return w;
            }
            self.newline();
            proof {
                let line = self.text().subrange(before.len() as int, self.text().len() as int);
                assert(self.text() =~= before + line);
                assert(self.text().subrange(old(self).text().len() as int, self.text().len() as int)
                    =~= before.subrange(old(self).text().len() as int, before.len() as int) + line);
            }
            k += 1;
        }
        assert(args@.subrange(0, args.len() as int) =~= args@);
        assert(self.text() =~= old(self).text() + self.text().subrange(
            old(self).text().len() as int,
            self.text().len() as int,
        ));
        Ok(())
    }

    /// Writes `(name : value, ...)` for a field's arguments.
    fn gen_ql_arguments(&mut self, args: &Vec<parser::Argument>)
        requires
            args.len() > 0,
        ensures
            final(self).text() == old(self).text() + "("@ + args_text(args@) + ")"@,
            final(self).extends(old(self)),
            final(self).indent == old(self).indent,
    {
        self.put("(");
        let ghost base = self.text();
        let mut j: usize = 0;
        while j < args.len()
            invariant
                j <= args.len(),
                self.schema_of() == old(self).schema_of(),
                self.frags() == old(self).frags(),
                self.indent == old(self).indent,
                base == old(self).text() + "("@,
                self.text() == base + args_text(args@.subrange(0, j as int)),
            decreases args.len() - j,
        {
            if j > 0 {
                self.put(", ");
            }
            self.put(args[j].name.as_str());
            self.put(" : ");
            self.gen_ql_value(&args[j].value);
            proof {
                let sub = args@.subrange(0, j + 1);
                assert(sub.drop_last() =~= args@.subrange(0, j as int));
                assert(self.text() =~= base + args_text(sub));
            }
            j += 1;
        }
        self.put(")");
        assert(args@.subrange(0, args.len() as int) =~= args@);
        proof {
            let x = "("@ + args_text(args@) + ")"@;
            assert(self.text() =~= old(self).text() + x);
            crate::text::lemma_prefix_append(old(self).text(), x);
        }
    }

    /// Writes one item of a selection on `object_type` back as query text.
    fn gen_ql_item(&mut self, object_type: &NamedType, field: &Field) -> (r: Result<(), GenError>)
        requires
            old(self).indent + field_depth(*field) + 1 < usize::MAX,
        ensures
            final(self).extends(old(self)),
            match ql_item(*old(self).schema_of(), *object_type, *field, old(self).indent as nat) {
                Some(x) => r is Ok && final(self).text() == old(self).text() + x
                    && final(self).indent == old(self).indent,
                None => r is Err,
            },
        decreases field,
    {
        match field {
            Field::PlainField(plain_field) => {
                self.put(plain_field.name.as_str());
                if plain_field.args.len() > 0 {
                    self.gen_ql_arguments(&plain_field.args);
                }
                let ghost head = self.text();
                proof {
                    let h = plain_field.name@ + if plain_field.args@.len() > 0 {
                        "("@ + args_text(plain_field.args@) + ")"@
                    } else {
                        seq![]
                    };
                    assert(head =~= old(self).text() + h);
                }
                if plain_field.fields.len() > 0 {
                    let named = match self.schema.get_type_of_field(
                        object_type,
                        plain_field.name.as_str(),
                    ) {
                        Some(t) => t,
                        None => return Err(GenError::UnknownField(plain_field.name.clone())),
                    };
                    self.gen_ql_fields(named, &plain_field.fields)?;
                    proof {
                        let sel = self.text().subrange(head.len() as int, self.text().len() as int);
                        assert(self.text() =~= head + sel);
                    }
                }
                Ok(())
            },
            Field::Fragment(frag) => {
                self.put("...");
                self.put(frag.as_str());
                assert(self.text() =~= old(self).text() + ("..."@ + frag@));
                Ok(())
            },
            Field::InlineFragment(inline) => {
                let named = match self.schema.get_named(&inline.on) {
                    Some(t) => t,
                    None => return Err(GenError::UnknownType(String::from_str("inline fragment"))),
                };
                self.put("... on ");
                self.gen_ql_type(&inline.on);
                let ghost head = self.text();
                self.gen_ql_fields(named, &inline.fields)?;
                proof {
                    let sel = self.text().subrange(head.len() as int, self.text().len() as int);
                    assert(self.text() =~= head + sel);
                    assert(self.text() =~= old(self).text() + ("... on "@ + ql_type_text(inline.on) + sel));
                }
                Ok(())
            },
        }
    }

    /// Writes a selection back as query text, with `__typename` first in a
    /// selection on an interface. An empty selection writes nothing.
    #[verifier::rlimit(80)]
    #[verifier::spinoff_prover]
    fn gen_ql_fields(&mut self, object_type: &NamedType, fields: &Vec<Field>) -> (r: Result<
        (),
        GenError,
    >)
        requires
            old(self).indent + selection_depth(fields@) + 2 < usize::MAX,
        ensures
            final(self).extends(old(self)),
            match ql_selection(*old(self).schema_of(), *object_type, fields@, old(self).indent as nat) {
                Some(x) => r is Ok && final(self).text() == old(self).text() + x
                    && final(self).indent == old(self).indent,
                None => r is Err,
            },
        decreases fields,
    {
        let ghost s = *self.schema_of();
        let ghost n = self.indent as nat;
        if fields.len() == 0 {
            return Ok(());
        }
        self.opening_brace();
        let ghost head_start = self.text();
        if object_type.kind == NamedTypeKind::Interface {
            self.newline();
            self.put("__typename");
        }
        let ghost base = self.text();
        proof {
            if object_type.kind == NamedTypeKind::Interface {
                assert(base == head_start + (line_break(n + 1) + "__typename"@));
            } else {
                assert(base =~= head_start + Seq::<char>::empty());
            }
        }
        let mut k: usize = 0;
        while k < fields.len()
            invariant
                n + selection_depth(fields@) + 2 < usize::MAX,
                k <= fields.len(),
                self.schema_of() == old(self).schema_of(),
                self.frags() == old(self).frags(),
                s == *old(self).schema_of(),
                n == old(self).indent as nat,
                self.indent == n + 1,
                n + 1 < usize::MAX,
                is_prefix(old(self).text(), base),
                is_prefix(base, self.text()),
                ql_items(s, *object_type, fields@.subrange(0, k as int), n + 1) == Some(
                    self.text().subrange(base.len() as int, self.text().len() as int),
                ),
            decreases fields.len() - k,
        {
            proof {
                assert(decreases_to!(fields => fields@[k as int]));
            }
            let ghost before = self.text();
            let ghost sub = fields@.subrange(0, k + 1);
            proof {
                assert(sub.drop_last() =~= fields@.subrange(0, k as int));
                assert(sub.last() == fields@[k as int]);
            }
            self.newline();
            let ghost item_start = self.text();
            proof {
                lemma_field_depth(fields@, k as int);
            }
            let item = self.gen_ql_item(object_type, &fields[k]);
            if item.is_err() {
                proof {
                    assert(ql_item(s, *object_type, fields@[k as int], n + 1) is None);
                    lemma_items_fail(s, *object_type, fields@, k as int, n + 1);
                    assert(ql_items(s, *object_type, fields@, n + 1) is None);
                    assert(ql_selection(s, *object_type, fields@, n) is None);
                }
                return item;
            }
            proof {
                let it = self.text().subrange(item_start.len() as int, self.text().len() as int);
                assert(self.text() =~= item_start + it);
                assert(self.text().subrange(base.len() as int, self.text().len() as int) =~= before.subrange(
                    base.len() as int,
                    before.len() as int,
                ) + line_break(n + 1) + it);
            }
            k += 1;
        }
        let ghost body = self.text().subrange(base.len() as int, self.text().len() as int);
        proof {
            assert(fields@.subrange(0, fields.len() as int) =~= fields@);
            assert(self.text() =~= base + body);
        }
        self.closing_brace();
        proof {
            assert(self.text() =~= old(self).text() + (" {"@ + (if object_type.kind == NamedTypeKind::Interface {
                line_break(n + 1) + "__typename"@
            } else {
                seq![]
            }) + body + line_break(n) + "}"@));
        }
        Ok(())
    }

    /// The `fragments` list and the `graphql` text of an operation.
    #[verifier::rlimit(80)]
    #[verifier::spinoff_prover]
    fn gen_ql(&mut self, kind: &str, base: &NamedType, name: &str, args: &Vec<parser::ArgumentDef>, fields: &Vec<Field>) -> (r: Result<(), GenError>)
        requires
            old(self).indent + selection_depth(fields@) + 2 < usize::MAX,
        ensures
            final(self).extends(old(self)),
            match ql_text(*old(self).schema_of(), kind@, *base, name@, args@, fields@, old(self).indent as nat) {
                Some(x) => r is Ok && final(self).text() == old(self).text() + x
                    && final(self).indent == old(self).indent,
                None => r is Err,
            },
    {
        let ghost n = self.indent as nat;
        self.put("static let fragments : [String] = ");
        self.gen_dependent_fragments(fields);
        self.newline();
        self.put("static let graphql = \"\"\"");
        self.newline();
        self.put(kind);
        self.put(" ");
        self.put(name);
        self.gen_ql_args(args);
        let ghost a = self.text();
        assert(a =~= old(self).text() + ("static let fragments : [String] = "@ + "["@ + quoted_list(dependency_list(fields@)) + "]"@
            + line_break(n) + "static let graphql = \"\"\""@ + line_break(n) + kind@ + " "@ + name@
            + params_text(args@)));
        self.gen_ql_fields(base, fields)?;
        let ghost b = self.text();
        self.newline();
        self.put("\"\"\"");
        self.newline();
        proof {
            let sel = b.subrange(a.len() as int, b.len() as int);
            assert(b =~= a + sel);
            assert(self.text() =~= old(self).text() + ql_text(*old(self).schema_of(), kind@, *base, name@, args@, fields@, n)->Some_0);
        }
        Ok(())
    }

    /// The opening of a request type: `struct NameKind : Encodable, GraphQLKind {`.
    #[verifier::rlimit(80)]
    #[verifier::spinoff_prover]
    fn gen_request_head(&mut self, kind: &str, name: &str)
        requires
            old(self).indent < usize::MAX,
        ensures
            final(self).extends(old(self)),
            final(self).indent == old(self).indent + 1,
            final(self).text() == old(self).text() + (line_break(old(self).indent as nat) + line_break(
                old(self).indent as nat,
            ) + "struct "@ + swift_name_of(name@) + swift_name_of(kind@) + " : Encodable, GraphQL"@
                + swift_name_of(kind@) + " {"@ + line_break(old(self).indent as nat + 1)),
    {
        let ghost n = self.indent as nat;
        self.newline();
        self.newline();
        let kind_upper = Self::swift_name(kind);
        let request_name = Self::swift_name(name);
        self.put("struct ");
        self.put(request_name.as_str());
        self.put(kind_upper.as_str());
        self.put(" : Encodable, GraphQL");
        self.put(kind_upper.as_str());
        let ghost a0 = self.text();
        assert(a0 =~= old(self).text() + (line_break(n) + line_break(n) + "struct "@ + request_name@
            + kind_upper@ + " : Encodable, GraphQL"@ + kind_upper@));
        self.opening_brace();
        self.newline();
        assert(self.text() =~= old(self).text() + (line_break(n) + line_break(n) + "struct "@ + swift_name_of(name@)
            + swift_name_of(kind@) + " : Encodable, GraphQL"@ + swift_name_of(kind@) + " {"@
            + line_break(n + 1)));
    }

    /// The request type of one query or mutation: its text, its arguments
    /// and its `Data` response type.
    #[verifier::rlimit(80)]
    #[verifier::spinoff_prover]
    fn gen_api_for(&mut self, kind: &str, base: &NamedType, name: &str, args: &Vec<parser::ArgumentDef>, fields: &Vec<Field>) -> (r: Result<(), GenError>)
        requires
            old(self).indent + selection_depth(fields@) + 10 < usize::MAX,
        ensures
            final(self).extends(old(self)),
            match api_text(*old(self).schema_of(), old(self).frags(), kind@, *base, name@, args@, fields@, old(self).indent as nat) {
                Some(x) => r is Ok && final(self).text() == old(self).text() + x
                    && final(self).indent == old(self).indent,
                None => r is Err,
            },
    {
        let ghost n = self.indent as nat;
        self.gen_request_head(kind, name);
        let ghost a = self.text();
        self.gen_ql(kind, base, name, args, fields)?;
        let ghost b = self.text();
        self.newline();
        let ghost c = self.text();
        self.gen_args(args)?;
        let ghost d = self.text();
        let g = self.gen_type_for(base, "Data", fields);
        if g.is_err() {
            return Err(g.unwrap_err());
        }
        let ghost e = self.text();
        self.closing_brace();
        proof {
            let q = b.subrange(a.len() as int, b.len() as int);
            let ar = d.subrange(c.len() as int, d.len() as int);
            let dt = e.subrange(d.len() as int, e.len() as int);
            assert(b =~= a + q);
            assert(d =~= c + ar);
            assert(e =~= d + dt);
            assert(self.text() =~= old(self).text() + api_text(*old(self).schema_of(), self.frags(), kind@, *base, name@, args@, fields@, n)->Some_0);
        }
        Ok(())
    }

    #[verifier::rlimit(80)]
    #[verifier::spinoff_prover]
    fn gen_queries(&mut self, queries: &Vec<parser::Query>) -> (r: Result<(), GenError>)
        requires
            forall|k: int|
                0 <= k < queries.len() ==> old(self).indent + selection_depth(
                    #[trigger] queries@[k].fields@,
                ) + 10 < usize::MAX,
        ensures
            final(self).extends(old(self)),
            queries.len() == 0 ==> r is Ok && final(self).text() == old(self).text(),
            queries.len() > 0 && old(self).schema_of().lookup(old(self).schema_of().query_type()) is None
                ==> r matches Err(GenError::MissingRoot),
            queries.len() > 0 ==> match old(self).schema_of().lookup(old(self).schema_of().query_type()) {
                Some(root) => match queries_text(*old(self).schema_of(), old(self).frags(), root, queries@, old(self).indent as nat) {
                    Some(x) => r is Ok && final(self).text() == old(self).text() + x
                        && final(self).indent == old(self).indent,
                    None => r is Err,
                },
                None => true,
            },
            r is Ok ==> final(self).indent == old(self).indent,
            r is Err ==> old(self).schema_of().lookup(old(self).schema_of().query_type()) is None
                || queries_text(*old(self).schema_of(), old(self).frags(), old(self).schema_of().lookup(old(self).schema_of().query_type())->Some_0, queries@, old(self).indent as nat) is None,
    {
        if queries.len() == 0 {
            return Ok(());
        }
        let ghost sch = *self.schema_of();
        let ghost n = self.indent as nat;
        let root = match self.schema.query_root() {
            Some(t) => t,
            None => return Err(GenError::MissingRoot),
        };
        let mut k: usize = 0;
        while k < queries.len()
            invariant
                forall|j: int|
                    0 <= j < queries.len() ==> old(self).indent + selection_depth(
                        #[trigger] queries@[j].fields@,
                    ) + 10 < usize::MAX,
                k <= queries.len(),
                self.schema_of() == old(self).schema_of(),
                self.frags() == old(self).frags(),
                sch == *old(self).schema_of(),
                n == old(self).indent as nat,
                self.indent == old(self).indent,
                old(self).schema_of().lookup(old(self).schema_of().query_type()) == Some(*root),
                is_prefix(old(self).text(), self.text()),
                queries_text(sch, self.frags(), *root, queries@.subrange(0, k as int), n) == Some(
                    self.text().subrange(old(self).text().len() as int, self.text().len() as int),
                ),
            decreases queries.len() - k,
        {
            let ghost before = self.text();
            let ghost sub = queries@.subrange(0, k + 1);
            proof {
                assert(sub.drop_last() =~= queries@.subrange(0, k as int));
                assert(sub.last() == queries@[k as int]);
            }
            let q = &queries[k];
            assert(old(self).indent + selection_depth(queries@[k as int].fields@) + 10 < usize::MAX);
            let a = self.gen_api_for("query", root, q.name.as_str(), &q.args, &q.fields);
            if a.is_err() {
                proof {
                    lemma_queries_fail(sch, self.frags(), *root, queries@, k as int, n);
                }
                return a;
            }
            proof {
                let piece = self.text().subrange(before.len() as int, self.text().len() as int);
                assert(self.text() =~= before + piece);
                assert(self.text().subrange(old(self).text().len() as int, self.text().len() as int)
                    =~= before.subrange(old(self).text().len() as int, before.len() as int) + piece);
            }
            k += 1;
        }
        assert(queries@.subrange(0, queries.len() as int) =~= queries@);
        assert(self.text() =~= old(self).text() + self.text().subrange(
            old(self).text().len() as int,
            self.text().len() as int,
        ));
        Ok(())
    }

    #[verifier::rlimit(80)]
    #[verifier::spinoff_prover]
    fn gen_mutations(&mut self, mutations: &Vec<parser::Mutation>) -> (r: Result<(), GenError>)
        requires
            forall|k: int|
                0 <= k < mutations.len() ==> old(self).indent + selection_depth(
                    #[trigger] mutations@[k].fields@,
                ) + 10 < usize::MAX,
        ensures
            final(self).extends(old(self)),
            mutations.len() == 0 ==> r is Ok && final(self).text() == old(self).text(),
            mutations.len() > 0 && old(self).schema_of().lookup(old(self).schema_of().mutation_type()) is None
                ==> r matches Err(GenError::MissingRoot),
            mutations.len() > 0 ==> match old(self).schema_of().lookup(old(self).schema_of().mutation_type()) {
                Some(root) => match mutations_text(*old(self).schema_of(), old(self).frags(), root, mutations@, old(self).indent as nat) {
                    Some(x) => r is Ok && final(self).text() == old(self).text() + x
                        && final(self).indent == old(self).indent,
                    None => r is Err,
                },
                None => true,
            },
            r is Ok ==> final(self).indent == old(self).indent,
            r is Err ==> old(self).schema_of().lookup(old(self).schema_of().mutation_type()) is None
                || mutations_text(*old(self).schema_of(), old(self).frags(), old(self).schema_of().lookup(old(self).schema_of().mutation_type())->Some_0, mutations@, old(self).indent as nat) is None,
    {
        if mutations.len() == 0 {
            return Ok(());
        }
        let ghost sch = *self.schema_of();
        let ghost n = self.indent as nat;
        let root = match self.schema.mutation_root() {
            Some(t) => t,
            None => return Err(GenError::MissingRoot),
        };
        let mut k: usize = 0;
        while k < mutations.len()
            invariant
                forall|j: int|
                    0 <= j < mutations.len() ==> old(self).indent + selection_depth(
                        #[trigger] mutations@[j].fields@,
                    ) + 10 < usize::MAX,
                k <= mutations.len(),
                self.schema_of() == old(self).schema_of(),
                self.frags() == old(self).frags(),
                sch == *old(self).schema_of(),
                n == old(self).indent as nat,
                self.indent == old(self).indent,
                old(self).schema_of().lookup(old(self).schema_of().mutation_type()) == Some(*root),
                is_prefix(old(self).text(), self.text()),
                mutations_text(sch, self.frags(), *root, mutations@.subrange(0, k as int), n) == Some(
                    self.text().subrange(old(self).text().len() as int, self.text().len() as int),
                ),
            decreases mutations.len() - k,
        {
            let ghost before = self.text();
            let ghost sub = mutations@.subrange(0, k + 1);
            proof {
                assert(sub.drop_last() =~= mutations@.subrange(0, k as int));
                assert(sub.last() == mutations@[k as int]);
            }
            let m = &mutations[k];
            assert(old(self).indent + selection_depth(mutations@[k as int].fields@) + 10 < usize::MAX);
            let a = self.gen_api_for("mutation", root, m.name.as_str(), &m.args, &m.fields);
            if a.is_err() {
                proof {
                    lemma_mutations_fail(sch, self.frags(), *root, mutations@, k as int, n);
                }
                return a;
            }
            proof {
                let piece = self.text().subrange(before.len() as int, self.text().len() as int);
                assert(self.text() =~= before + piece);
                assert(self.text().subrange(old(self).text().len() as int, self.text().len() as int)
                    =~= before.subrange(old(self).text().len() as int, before.len() as int) + piece);
            }
            k += 1;
        }
        assert(mutations@.subrange(0, mutations.len() as int) =~= mutations@);
        assert(self.text() =~= old(self).text() + self.text().subrange(
            old(self).text().len() as int,
            self.text().len() as int,
        ));
        Ok(())
    }

    #[verifier::rlimit(80)]
    #[verifier::spinoff_prover]
    fn gen_registration_head(&mut self, frag: &parser::Fragment, on: &NamedType)
        requires
            old(self).indent + selection_depth(frag.fields@) + 10 < usize::MAX,
        ensures
            final(self).extends(old(self)),
            final(self).indent == old(self).indent + 1,
            final(self).text() == old(self).text() + registration_head(*frag, *on, old(self).indent as nat),
    {
        let ghost n = self.indent as nat;
        self.newline();
        self.put("func init");
        let t = Self::swift_name(frag.name.as_str());
        self.put(t.as_str());
        self.put("Fragment(meta: FragmentMeta)");
        let ghost a0 = self.text();
        assert(a0 =~= old(self).text() + (line_break(n) + "func init"@ + t@ + "Fragment(meta: FragmentMeta)"@));
        self.opening_brace();
        self.newline();
        self.put("meta.register(name: \"");
        self.put(frag.name.as_str());
        self.put("\", fragments: ");
        let ghost a = self.text();
        self.gen_dependent_fragments(&frag.fields);
        self.put(", graphql: \"\"\"");
        let ghost b = self.text();
        assert(b =~= a + ("["@ + quoted_list(dependency_list(frag.fields@)) + "]"@ + ", graphql: \"\"\""@));
        self.newline();
        self.put("fragment ");
        self.put(frag.name.as_str());
        self.put(" on ");
        self.put(on.name.as_str());
        self.gen_ql_args(&frag.args);
        assert(self.text() =~= old(self).text() + registration_head(*frag, *on, n));
    }

    /// The function that registers a fragment's name, dependencies and text.
    #[verifier::rlimit(80)]
    #[verifier::spinoff_prover]
    fn gen_registration(&mut self, frag: &parser::Fragment, on: &NamedType) -> (r: Result<(), GenError>)
        requires
            old(self).indent + selection_depth(frag.fields@) + 10 < usize::MAX,
        ensures
            final(self).extends(old(self)),
            match registration_text(*old(self).schema_of(), *frag, *on, old(self).indent as nat) {
                Some(x) => r is Ok && final(self).text() == old(self).text() + x
                    && final(self).indent == old(self).indent,
                None => r is Err,
            },
    {
        let ghost n = self.indent as nat;
        self.gen_registration_head(frag, on);
        let ghost c = self.text();
        self.gen_ql_fields(on, &frag.fields)?;
        let ghost d = self.text();
        self.newline();
        self.put("\"\"\")");
        self.closing_brace();
        proof {
            let sel = d.subrange(c.len() as int, d.len() as int);
            assert(d =~= c + sel);
            assert(self.text() =~= old(self).text() + registration_text(*old(self).schema_of(), *frag, *on, n)->Some_0);
        }
        Ok(())
    }

    /// A fragment's type, and a function that registers its name,
    /// dependencies and text with a `FragmentMeta`.
    #[verifier::rlimit(80)]
    #[verifier::spinoff_prover]
    fn gen_fragment(&mut self, frag: &parser::Fragment) -> (r: Result<(), GenError>)
        requires
            old(self).indent + selection_depth(frag.fields@) + 10 < usize::MAX,
        ensures
            final(self).extends(old(self)),
            match fragment_text(*old(self).schema_of(), old(self).frags(), *frag, old(self).indent as nat) {
                Some(x) => r is Ok && final(self).text() == old(self).text() + x
                    && final(self).indent == old(self).indent,
                None => r is Err,
            },
    {
        let ghost n = self.indent as nat;
        let ghost sch = *self.schema_of();
        let on = match self.schema.get_named(&frag.on) {
            Some(t) => t,
            None => return Err(GenError::UnknownType(frag.name.clone())),
        };
        self.newline();
        self.newline();
        let ghost a = self.text();
        let g = self.gen_type_for(on, frag.name.as_str(), &frag.fields);
        if g.is_err() {
            return Err(g.unwrap_err());
        }
        let ghost b = self.text();
        self.gen_registration(frag, on)?;
        proof {
            let decl = b.subrange(a.len() as int, b.len() as int);
            let reg = self.text().subrange(b.len() as int, self.text().len() as int);
            assert(b =~= a + decl);
            assert(self.text() =~= b + reg);
            assert(self.text() =~= old(self).text() + fragment_text(sch, self.frags(), *frag, n)->Some_0);
        }
        Ok(())
    }

    #[verifier::rlimit(80)]
    #[verifier::spinoff_prover]
    fn gen_fragments(&mut self, fragments: &Vec<parser::Fragment>) -> (r: Result<(), GenError>)
        requires
            forall|k: int|
                0 <= k < fragments.len() ==> old(self).indent + selection_depth(
                    #[trigger] fragments@[k].fields@,
                ) + 10 < usize::MAX,
        ensures
            final(self).extends(old(self)),
            fragments.len() == 0 ==> r is Ok && final(self).text() == old(self).text(),
            r is Ok ==> final(self).indent == old(self).indent,
            match fragments_text(*old(self).schema_of(), old(self).frags(), fragments@, old(self).indent as nat) {
                Some(x) => r is Ok && final(self).text() == old(self).text() + x
                    && final(self).indent == old(self).indent,
                None => r is Err,
            },
    {
        let ghost sch = *self.schema_of();
        let ghost n = self.indent as nat;
        let mut k: usize = 0;
        assert(fragments@.subrange(0, 0) =~= Seq::<parser::Fragment>::empty());
        while k < fragments.len()
            invariant
                forall|j: int|
                    0 <= j < fragments.len() ==> old(self).indent + selection_depth(
                        #[trigger] fragments@[j].fields@,
                    ) + 10 < usize::MAX,
                k <= fragments.len(),
                self.schema_of() == old(self).schema_of(),
                self.frags() == old(self).frags(),
                sch == *old(self).schema_of(),
                n == old(self).indent as nat,
                self.indent == old(self).indent,
                is_prefix(old(self).text(), self.text()),
                fragments_text(sch, self.frags(), fragments@.subrange(0, k as int), n) == Some(
                    self.text().subrange(old(self).text().len() as int, self.text().len() as int),
                ),
            decreases fragments.len() - k,
        {
            let ghost before = self.text();
            let ghost sub = fragments@.subrange(0, k + 1);
            proof {
                assert(sub.drop_last() =~= fragments@.subrange(0, k as int));
                assert(sub.last() == fragments@[k as int]);
            }
            assert(old(self).indent + selection_depth(fragments@[k as int].fields@) + 10 < usize::MAX);
            let a = self.gen_fragment(&fragments[k]);
            if a.is_err() {
                proof {
                    lemma_fragments_fail(sch, self.frags(), fragments@, k as int, n);
                }
                return a;
            }
            proof {
                let piece = self.text().subrange(before.len() as int, self.text().len() as int);
                assert(self.text() =~= before + piece);
                assert(self.text().subrange(old(self).text().len() as int, self.text().len() as int)
                    =~= before.subrange(old(self).text().len() as int, before.len() as int) + piece);
            }
            k += 1;
        }
        assert(fragments@.subrange(0, fragments.len() as int) =~= fragments@);
        assert(self.text() =~= old(self).text() + self.text().subrange(
            old(self).text().len() as int,
            self.text().len() as int,
        ));
        Ok(())
    }
}

proof fn lemma_queries_fail(s: Schema, frs: Seq<parser::Fragment>, root: NamedType, qs: Seq<parser::Query>, k: int, n: nat)
    requires
        0 <= k < qs.len(),
        api_text(s, frs, "query"@, root, qs[k].name@, qs[k].args@, qs[k].fields@, n) is None,
    ensures
        queries_text(s, frs, root, qs, n) is None,
    decreases qs.len(),
{
    if k < qs.len() - 1 {
        assert(qs.drop_last()[k] == qs[k]);
        lemma_queries_fail(s, frs, root, qs.drop_last(), k, n);
    }
}

proof fn lemma_mutations_fail(s: Schema, frs: Seq<parser::Fragment>, root: NamedType, ms: Seq<parser::Mutation>, k: int, n: nat)
    requires
        0 <= k < ms.len(),
        api_text(s, frs, "mutation"@, root, ms[k].name@, ms[k].args@, ms[k].fields@, n) is None,
    ensures
        mutations_text(s, frs, root, ms, n) is None,
    decreases ms.len(),
{
    if k < ms.len() - 1 {
        assert(ms.drop_last()[k] == ms[k]);
        lemma_mutations_fail(s, frs, root, ms.drop_last(), k, n);
    }
}

proof fn lemma_fragments_fail(s: Schema, frs: Seq<parser::Fragment>, items: Seq<parser::Fragment>, k: int, n: nat)
    requires
        0 <= k < items.len(),
        fragment_text(s, frs, items[k], n) is None,
    ensures
        fragments_text(s, frs, items, n) is None,
    decreases items.len(),
{
    if k < items.len() - 1 {
        assert(items.drop_last()[k] == items[k]);
        lemma_fragments_fail(s, frs, items.drop_last(), k, n);
    }
}

/// Generates the source text for a document: its fragments, then its
/// queries, then its mutations. Fails exactly where a name cannot be resolved
/// (a type, a field, a spread's fragment, or a needed root). Selections must
/// nest shallowly enough for the indentation count to fit in a machine word.
#[verifier::rlimit(80)]
#[verifier::spinoff_prover]
pub fn gen(schema: &Schema, module: &parser::GraphQL) -> (r: Result<String, GenError>)
    requires
        fits_indentation(*module),
    ensures
        match document_text(*schema, *module) {
            Some(x) => r matches Ok(t) && t@ == x,
            None => r is Err,
        },
        module.fragments.len() == 0 && module.queries.len() > 0 && schema.lookup(
            schema.query_type(),
        ) is None ==> r matches Err(GenError::MissingRoot),
        module.fragments.len() == 0 && module.queries.len() == 0 && module.mutations.len() > 0
            && schema.lookup(schema.mutation_type()) is None ==> r matches Err(
            GenError::MissingRoot,
        ),
{
    let mut codegen = Codegen { schema, fragments: &module.fragments, src: String::new(), indent: 0 };
    let f = codegen.gen_fragments(&module.fragments);
    if f.is_err() {
        return Err(f.unwrap_err());
    }
    let ghost a = codegen.text();
    let q = codegen.gen_queries(&module.queries);
    if q.is_err() {
        return Err(q.unwrap_err());
    }
    let ghost b = codegen.text();
    let m = codegen.gen_mutations(&module.mutations);
    if m.is_err() {
        return Err(m.unwrap_err());
    }
    let ghost c = codegen.text();
    proof {
        let qt = b.subrange(a.len() as int, b.len() as int);
        let mt = c.subrange(b.len() as int, c.len() as int);
        assert(b =~= a + qt);
        assert(c =~= b + mt);
        assert(a =~= Seq::<char>::empty() + a);
    }
    Ok(codegen.src)
}

} // verus!
