use vstd::prelude::*;
use crate::lexer::{Tk, Token, TokenKind};

verus! {

pub enum Value {
    Int(i32),
    String(String),
    Bool(bool),
    Variable(String),
}

pub enum Type {
    NonNull(Box<Type>),
    Int,
    Float,
    Bool,
    String,
    Input(String),
    Array(Box<Type>),
}

pub struct Argument {
    pub name: String,
    pub value: Value,
}

pub struct PlainField {
    pub name: String,
    pub args: Vec<Argument>,
    pub fields: Vec<Field>,
}

pub enum Field {
    PlainField(PlainField),
    InlineFragment(InlineFragment),
    Fragment(String),
}

pub struct ArgumentDef {
    pub name: String,
    pub kind: Type,
}

pub struct Query {
    pub name: String,
    pub args: Vec<ArgumentDef>,
    pub fields: Vec<Field>,
}

pub struct Mutation {
    pub name: String,
    pub args: Vec<ArgumentDef>,
    pub fields: Vec<Field>,
}

pub struct Fragment {
    pub name: String,
    pub args: Vec<ArgumentDef>,
    pub on: Type,
    pub fields: Vec<Field>,
}

pub struct InlineFragment {
    pub on: Type,
    pub fields: Vec<Field>,
}

/// A parsed document: its fragments, queries and mutations, each in source order.
pub struct GraphQL {
    pub fragments: Vec<Fragment>,
    pub queries: Vec<Query>,
    pub mutations: Vec<Mutation>,
}

pub enum ErrorKind {
    SyntaxError,
    Expecting(&'static str),
}

/// A syntax error, at the line and column of the offending (or last) token.
pub struct Error {
    pub column: u32,
    pub line: u32,
    pub kind: ErrorKind,
}

/// The tokens that write a type.
pub open spec fn type_toks(t: Type) -> Seq<Tk>
    decreases t,
{
    match t {
        Type::NonNull(e) => type_toks(*e) + seq![Tk::Exclamation],
        Type::Int => seq![Tk::IntKw],
        Type::Float => seq![],
        Type::Bool => seq![Tk::BoolKw],
        Type::String => seq![Tk::StringKw],
        Type::Input(n) => seq![Tk::Ident(n@)],
        Type::Array(e) => seq![Tk::OpenSquare] + type_toks(*e) + seq![Tk::CloseSquare],
    }
}

/// A type that tokens can write: no `Float` inside.
pub open spec fn float_free(t: Type) -> bool
    decreases t,
{
    match t {
        Type::NonNull(e) => float_free(*e),
        Type::Array(e) => float_free(*e),
        Type::Float => false,
        _ => true,
    }
}

/// The tokens from `i` on write the well-formed type `t`, and no `!` that
/// would extend it follows.
pub open spec fn writes_type(ts: Seq<Token>, i: int, t: Type) -> bool {
    let e = i + type_toks(t).len();
    &&& float_free(t)
    &&& type_wf(t)
    &&& 0 <= i && e <= ts.len()
    &&& kinds(ts, i, e) == type_toks(t)
    &&& (t is NonNull || !(e < ts.len() && ts[e].kind@ is Exclamation))
}

/// The type under at most one `NonNull`.
pub open spec fn nullable_part(t: Type) -> Type {
    match t {
        Type::NonNull(e) => *e,
        _ => t,
    }
}

/// What tokens that write a type look like: its nullable part comes first,
/// and a `!` follows exactly when the type is `NonNull`.
pub proof fn lemma_type_shape(ts: Seq<Token>, i: int, t: Type)
    requires
        writes_type(ts, i, t),
    ensures
        ({
            let b = nullable_part(t);
            let e = i + type_toks(b).len();
            &&& !(b is NonNull) && float_free(b) && type_wf(b)
            &&& type_toks(b).len() >= 1 && i < ts.len() && e <= ts.len()
            &&& kinds(ts, i, e) == type_toks(b)
            &&& (t is NonNull ==> e < ts.len() && ts[e].kind@ is Exclamation && type_toks(t).len()
                == type_toks(b).len() + 1)
            &&& (!(t is NonNull) ==> t == b && !(e < ts.len() && ts[e].kind@ is Exclamation))
            &&& (b matches Type::Input(n) ==> ts[i].kind@ == Tk::Ident(n@) && type_toks(b).len() == 1)
            &&& (b is Int ==> ts[i].kind@ is IntKw && type_toks(b).len() == 1)
            &&& (b is Bool ==> ts[i].kind@ is BoolKw && type_toks(b).len() == 1)
            &&& (b is String ==> ts[i].kind@ is StringKw && type_toks(b).len() == 1)
            &&& (b matches Type::Array(el) ==> ts[i].kind@ is OpenSquare && writes_type(ts, i + 1, *el)
                && ts[i + 1 + type_toks(*el).len()].kind@ is CloseSquare && type_toks(b).len()
                == type_toks(*el).len() + 2)
        }),
{
    let b = nullable_part(t);
    let tt = type_toks(t);
    let bt = type_toks(b);
    let e = i + bt.len();
    assert(float_free(b) && type_wf(b) && !(b is NonNull)) by {
        if let Type::NonNull(inner) = t {
            assert(b == *inner);
        }
    }
    lemma_type_nonempty(b);
    if let Type::NonNull(inner) = t {
        assert(tt == bt + seq![Tk::Exclamation]);
        assert(kinds(ts, i, e) =~= kinds(ts, i, i + tt.len()).subrange(0, bt.len() as int));
        assert(kinds(ts, i, i + tt.len())[bt.len() as int] == ts[e].kind@);
        assert((bt + seq![Tk::Exclamation]).subrange(0, bt.len() as int) =~= bt);
    }
    assert(kinds(ts, i, e) == bt);
    assert(kinds(ts, i, e)[0] == ts[i].kind@);
    if let Type::Array(el) = b {
        let et = type_toks(*el);
        assert(float_free(*el) && type_wf(*el));
        lemma_type_nonempty(*el);
        assert(bt == seq![Tk::OpenSquare] + et + seq![Tk::CloseSquare]);
        assert(kinds(ts, i + 1, i + 1 + et.len()) =~= kinds(ts, i, e).subrange(1, 1 + et.len() as int));
        assert((seq![Tk::OpenSquare] + et + seq![Tk::CloseSquare]).subrange(1, 1 + et.len() as int) =~= et);
        assert(kinds(ts, i, e)[1 + et.len() as int] == ts[i + 1 + et.len()].kind@);
        assert(writes_type(ts, i + 1, *el));
    }
}

proof fn lemma_type_nonempty(t: Type)
    requires
        float_free(t),
    ensures
        type_toks(t).len() >= 1,
    decreases t,
{
    match t {
        Type::NonNull(e) => lemma_type_nonempty(*e),
        Type::Array(e) => lemma_type_nonempty(*e),
        _ => {},
    }
}

/// `NonNull` never wraps another `NonNull`.
pub open spec fn type_wf(t: Type) -> bool
    decreases t,
{
    match t {
        Type::NonNull(e) => !(*e is NonNull) && type_wf(*e),
        Type::Array(e) => type_wf(*e),
        _ => true,
    }
}

/// Every type written in a field, through nested selections, is well formed.
pub open spec fn field_wf(f: Field) -> bool
    decreases f, 0nat,
{
    match f {
        Field::PlainField(p) => selection_wf(p.fields@),
        Field::InlineFragment(i) => type_wf(i.on) && selection_wf(i.fields@),
        Field::Fragment(_) => true,
    }
}

/// Every type written in a selection, through nested selections, is well formed.
pub open spec fn selection_wf(fs: Seq<Field>) -> bool
    decreases fs, 1nat,
{
    fs.len() == 0 || (selection_wf(fs.drop_last()) && field_wf(fs.last()))
}

pub open spec fn arg_defs_wf(args: Seq<ArgumentDef>) -> bool {
    forall|k: int| 0 <= k < args.len() ==> type_wf(#[trigger] args[k].kind)
}

/// Every type that a document writes is well formed: no `NonNull` wraps
/// another `NonNull`.
pub open spec fn document_wf(g: GraphQL) -> bool {
    &&& forall|k: int|
        0 <= k < g.fragments@.len() ==> {
            let f = #[trigger] g.fragments@[k];
            type_wf(f.on) && arg_defs_wf(f.args@) && selection_wf(f.fields@)
        }
    &&& forall|k: int|
        0 <= k < g.queries@.len() ==> {
            let q = #[trigger] g.queries@[k];
            arg_defs_wf(q.args@) && selection_wf(q.fields@)
        }
    &&& forall|k: int|
        0 <= k < g.mutations@.len() ==> {
            let m = #[trigger] g.mutations@[k];
            arg_defs_wf(m.args@) && selection_wf(m.fields@)
        }
}

/// The token that writes a value. A boolean has no token.
pub open spec fn value_tok(v: Value) -> Option<Tk> {
    match v {
        Value::Int(i) => Some(Tk::Int(i as int)),
        Value::String(s) => Some(Tk::Str(s@)),
        Value::Variable(n) => Some(Tk::Var(n@)),
        Value::Bool(_) => None,
    }
}

/// The tokens of arguments: `name : value` for each; none where a value has
/// no token.
pub open spec fn args_toks(args: Seq<Argument>) -> Option<Seq<Tk>>
    decreases args.len(),
{
    if args.len() == 0 {
        Some(seq![])
    } else {
        match (args_toks(args.drop_last()), value_tok(args.last().value)) {
            (Some(a), Some(t)) => Some(a + seq![Tk::Ident(args.last().name@), Tk::Colon, t]),
            _ => None,
        }
    }
}

/// The tokens of argument definitions: `$name : type` for each.
pub open spec fn arg_defs_toks(args: Seq<ArgumentDef>) -> Seq<Tk>
    decreases args.len(),
{
    if args.len() == 0 {
        seq![]
    } else {
        arg_defs_toks(args.drop_last()) + seq![Tk::Var(args.last().name@), Tk::Colon] + type_toks(
            args.last().kind,
        )
    }
}

pub open spec fn kinds(ts: Seq<Token>, a: int, b: int) -> Seq<Tk> {
    ts.subrange(a, b).map_values(|t: Token| t.kind@)
}

/// Where the arguments `args` end when their tokens start at `i`: a
/// parenthesised list `(name : value ...)`, or nothing at all where no `(`
/// stands there and there are no arguments.
pub open spec fn args_end(args: Seq<Argument>, ts: Seq<Token>, i: int) -> Option<int> {
    if 0 <= i < ts.len() && ts[i].kind@ is OpenParen {
        match args_toks(args) {
            Some(at) => {
                let e = i + 1 + at.len();
                if e < ts.len() && kinds(ts, i + 1, e) == at && ts[e].kind@ is CloseParen {
                    Some(e + 1)
                } else {
                    None
                }
            },
            None => None,
        }
    } else if args.len() == 0 {
        Some(i)
    } else {
        None
    }
}

/// Where the tokens of field `f` end when they start at `i`, if the tokens
/// there write `f`: `...Name`; `... on Type { ... }`; or a name, its
/// arguments, and a braced selection where a `{` follows (none otherwise).
pub open spec fn field_end(f: Field, ts: Seq<Token>, i: int) -> Option<int>
    decreases f, 0nat,
{
    match f {
        Field::Fragment(n) => if 0 <= i && i + 1 < ts.len() && ts[i].kind@ is Spread && ts[i
            + 1].kind@ == Tk::Ident(n@) {
            Some(i + 2)
        } else {
            None
        },
        Field::InlineFragment(inl) => {
            let e = i + 2 + type_toks(inl.on).len();
            if 0 <= i && e <= ts.len() && ts[i].kind@ is Spread && ts[i + 1].kind@ is On && kinds(
                ts,
                i + 2,
                e,
            ) == type_toks(inl.on) {
                selection_end(inl.fields@, ts, e)
            } else {
                None
            }
        },
        Field::PlainField(p) => if 0 <= i < ts.len() && ts[i].kind@ == Tk::Ident(p.name@) {
            match args_end(p.args@, ts, i + 1) {
                Some(j) => if 0 <= j < ts.len() && ts[j].kind@ is OpenBracket {
                    selection_end(p.fields@, ts, j)
                } else if p.fields@.len() == 0 {
                    Some(j)
                } else {
                    None
                },
                None => None,
            }
        } else {
            None
        },
    }
}

/// Where a braced selection `{ ... }` of the fields `fs` ends when it starts at `i`.
pub open spec fn selection_end(fs: Seq<Field>, ts: Seq<Token>, i: int) -> Option<int>
    decreases fs, 1nat,
{
    if 0 <= i < ts.len() && ts[i].kind@ is OpenBracket {
        match items_end(fs, ts, i + 1) {
            Some(j) => if 0 <= j < ts.len() && ts[j].kind@ is CloseBracket {
                Some(j + 1)
            } else {
                None
            },
            None => None,
        }
    } else {
        None
    }
}

/// Where the fields `fs`, written one after another from `i`, end.
pub open spec fn items_end(fs: Seq<Field>, ts: Seq<Token>, i: int) -> Option<int>
    decreases fs, 0nat,
{
    if fs.len() == 0 {
        Some(i)
    } else {
        match items_end(fs.drop_last(), ts, i) {
            Some(j) => field_end(fs.last(), ts, j),
            None => None,
        }
    }
}

/// Where the argument definitions `args` end when they start at `i`.
pub open spec fn arg_defs_end(args: Seq<ArgumentDef>, ts: Seq<Token>, i: int) -> Option<int> {
    if 0 <= i < ts.len() && ts[i].kind@ is OpenParen {
        let e = i + 1 + arg_defs_toks(args).len();
        if e < ts.len() && kinds(ts, i + 1, e) == arg_defs_toks(args) && ts[e].kind@ is CloseParen {
            Some(e + 1)
        } else {
            None
        }
    } else if args.len() == 0 {
        Some(i)
    } else {
        None
    }
}

/// Where the tokens of query `q` end when they start at `i`:
/// `query Name (defs)? { ... }`.
pub open spec fn query_end(q: Query, ts: Seq<Token>, i: int) -> Option<int> {
    if 0 <= i && i + 1 < ts.len() && ts[i].kind@ is Query && ts[i + 1].kind@ == Tk::Ident(q.name@) {
        match arg_defs_end(q.args@, ts, i + 2) {
            Some(j) => selection_end(q.fields@, ts, j),
            None => None,
        }
    } else {
        None
    }
}

/// Where the tokens of mutation `m` end when they start at `i`:
/// `mutation Name (defs)?`, then a selection where a `{` follows; without a
/// selection the next token must be a name, `}` or `...`, as for a field.
pub open spec fn mutation_end(m: Mutation, ts: Seq<Token>, i: int) -> Option<int> {
    if 0 <= i && i + 1 < ts.len() && ts[i].kind@ is Mutation && ts[i + 1].kind@ == Tk::Ident(
        m.name@,
    ) {
        match arg_defs_end(m.args@, ts, i + 2) {
            Some(j) => if 0 <= j < ts.len() && ts[j].kind@ is OpenBracket {
                selection_end(m.fields@, ts, j)
            } else if m.fields@.len() == 0 && 0 <= j < ts.len() && (ts[j].kind@ is Ident
                || ts[j].kind@ is CloseBracket || ts[j].kind@ is Spread) {
                Some(j)
            } else {
                None
            },
            None => None,
        }
    } else {
        None
    }
}

/// Where the tokens of fragment `f` end when they start at `i`:
/// `fragment Name on Type (defs)? { ... }`.
pub open spec fn fragment_end(f: Fragment, ts: Seq<Token>, i: int) -> Option<int> {
    let e = i + 3 + type_toks(f.on).len();
    if 0 <= i && e <= ts.len() && ts[i].kind@ is Fragment && ts[i + 1].kind@ == Tk::Ident(f.name@)
        && ts[i + 2].kind@ is On && kinds(ts, i + 3, e) == type_toks(f.on) {
        match arg_defs_end(f.args@, ts, e) {
            Some(j) => selection_end(f.fields@, ts, j),
            None => None,
        }
    } else {
        None
    }
}

/// Run `idx[j]` of `bounds` writes query `j`, and the runs go in source order.
pub open spec fn queries_at(qs: Seq<Query>, ts: Seq<Token>, bounds: Seq<int>, idx: Seq<int>) -> bool {
    &&& idx.len() == qs.len()
    &&& forall|j: int|
        0 <= j < qs.len() ==> 0 <= #[trigger] idx[j] < bounds.len() - 1 && query_end(qs[j], ts, bounds[idx[j]])
            == Some(bounds[idx[j] + 1])
    &&& forall|a: int, b: int| 0 <= a < b < idx.len() ==> idx[a] < idx[b]
}

/// Run `idx[j]` of `bounds` writes mutation `j`, and the runs go in source order.
pub open spec fn mutations_at(ms: Seq<Mutation>, ts: Seq<Token>, bounds: Seq<int>, idx: Seq<int>) -> bool {
    &&& idx.len() == ms.len()
    &&& forall|j: int|
        0 <= j < ms.len() ==> 0 <= #[trigger] idx[j] < bounds.len() - 1 && mutation_end(ms[j], ts, bounds[idx[j]])
            == Some(bounds[idx[j] + 1])
    &&& forall|a: int, b: int| 0 <= a < b < idx.len() ==> idx[a] < idx[b]
}

/// Run `idx[j]` of `bounds` writes fragment `j`, and the runs go in source order.
pub open spec fn fragments_at(frs: Seq<Fragment>, ts: Seq<Token>, bounds: Seq<int>, idx: Seq<int>) -> bool {
    &&& idx.len() == frs.len()
    &&& forall|j: int|
        0 <= j < frs.len() ==> 0 <= #[trigger] idx[j] < bounds.len() - 1 && fragment_end(frs[j], ts, bounds[idx[j]])
            == Some(bounds[idx[j] + 1])
    &&& forall|a: int, b: int| 0 <= a < b < idx.len() ==> idx[a] < idx[b]
}

/// The tokens are cut into consecutive runs, each opened by `query`,
/// `mutation` or `fragment`, one run per item of `g`; each query, mutation
/// and fragment of `g` is what its run writes, in source order.
pub open spec fn written_by_runs(g: GraphQL, ts: Seq<Token>) -> bool {
    exists|bounds: Seq<int>, qi: Seq<int>, mi: Seq<int>, fi: Seq<int>|
        #![trigger queries_at(g.queries@, ts, bounds, qi), mutations_at(g.mutations@, ts, bounds, mi), fragments_at(g.fragments@, ts, bounds, fi)]
        items_cover(ts, bounds) && bounds.len() == item_count(g) + 1 && queries_at(
            g.queries@,
            ts,
            bounds,
            qi,
        ) && mutations_at(g.mutations@, ts, bounds, mi) && fragments_at(g.fragments@, ts, bounds, fi)
}

/// An error stands at the place of one of the tokens (there are none to
/// point at in an empty sequence).
pub open spec fn located(ts: Seq<Token>, e: Error) -> bool {
    ts.len() == 0 || exists|k: int|
        0 <= k < ts.len() && e.line == #[trigger] ts[k].line && e.column == ts[k].column
}

/// The token of a value: an integer, a string or a variable.
pub open spec fn is_value_tok(k: Tk) -> bool {
    k is Int || k is Str || k is Var
}

/// Argument `m` of a list opened at `i` is written `name : value`.
pub open spec fn arg_at(ts: Seq<Token>, i: int, m: int) -> bool {
    &&& ts[i + 1 + 3 * m].kind@ is Ident
    &&& ts[i + 2 + 3 * m].kind@ is Colon
    &&& is_value_tok(ts[i + 3 + 3 * m].kind@)
}

/// From `i` on the tokens write a parenthesised list of `cnt` arguments.
pub open spec fn arg_list(ts: Seq<Token>, i: int, cnt: nat) -> bool {
    &&& 0 <= i && i + 1 + 3 * cnt < ts.len()
    &&& ts[i].kind@ is OpenParen
    &&& forall|m: int| 0 <= m < cnt ==> #[trigger] arg_at(ts, i, m)
    &&& ts[i + 1 + 3 * cnt].kind@ is CloseParen
}

pub open spec fn starts_item(k: Tk) -> bool {
    k is Query || k is Mutation || k is Fragment
}

/// `bounds` cuts the tokens into consecutive, non-empty runs that each start
/// with `query`, `mutation` or `fragment`, and together hold every token.
pub open spec fn items_cover(ts: Seq<Token>, bounds: Seq<int>) -> bool {
    &&& bounds.len() >= 1
    &&& bounds[0] == 0
    &&& bounds.last() == ts.len()
    &&& forall|k: int| 0 <= k < bounds.len() - 1 ==> bounds[k] < #[trigger] bounds[k + 1]
    &&& forall|k: int|
        0 <= k < bounds.len() - 1 ==> starts_item(#[trigger] ts[bounds[k]].kind@)
}

pub open spec fn item_count(g: GraphQL) -> int {
    g.fragments.len() + g.queries.len() + g.mutations.len()
}

fn same_unit_kind(a: &TokenKind, b: &TokenKind) -> (r: bool)
    ensures
        r ==> a@ == b@,
        !(b is Int || b is String || b is Identifier || b is Variable) ==> (r == (a@ == b@)),
{
    match (a, b) {
        (TokenKind::FragmentKeyword, TokenKind::FragmentKeyword) => true,
        (TokenKind::QueryKeyword, TokenKind::QueryKeyword) => true,
        (TokenKind::MutationKeyword, TokenKind::MutationKeyword) => true,
        (TokenKind::OnKeyword, TokenKind::OnKeyword) => true,
        (TokenKind::StringKeyword, TokenKind::StringKeyword) => true,
        (TokenKind::IntKeyword, TokenKind::IntKeyword) => true,
        (TokenKind::BoolKeyword, TokenKind::BoolKeyword) => true,
        (TokenKind::Spread, TokenKind::Spread) => true,
        (TokenKind::OpenParen, TokenKind::OpenParen) => true,
        (TokenKind::CloseParen, TokenKind::CloseParen) => true,
        (TokenKind::OpenSquare, TokenKind::OpenSquare) => true,
        (TokenKind::CloseSquare, TokenKind::CloseSquare) => true,
        (TokenKind::Exclamation, TokenKind::Exclamation) => true,
        (TokenKind::OpenBracket, TokenKind::OpenBracket) => true,
        (TokenKind::CloseBracket, TokenKind::CloseBracket) => true,
        (TokenKind::Colon, TokenKind::Colon) => true,
        _ => false,
    }
}

struct Parser {
    module: GraphQL,
    tokens: Vec<Token>,
    i: usize,
}

impl Parser {
    spec fn wf(&self) -> bool {
        self.i <= self.tokens.len()
    }

    /// The same tokens, at a position no earlier, and the same document so far.
    spec fn moved_on(&self, before: &Parser) -> bool {
        &&& self.tokens == before.tokens
        &&& self.module == before.module
        &&& before.i <= self.i <= self.tokens.len()
    }

    spec fn at(&self, k: int) -> Tk {
        self.tokens[k].kind@
    }

    /// Consumes the current token and returns its index, if there is one.
    fn next(&mut self) -> (r: Option<usize>)
        requires
            old(self).wf(),
        ensures
            final(self).tokens == old(self).tokens,
            final(self).module == old(self).module,
            old(self).i < old(self).tokens.len() ==> r == Some(old(self).i) && final(self).i
                == old(self).i + 1,
            old(self).i >= old(self).tokens.len() ==> r is None && final(self).i == old(self).i,
    {
        if self.i < self.tokens.len() {
            let i = self.i;
            self.i = i + 1;
            Some(i)
        } else {
            None
        }
    }

    /// The kind of the current token, without consuming it.
    fn current(&self) -> (r: Option<&TokenKind>)
        requires
            self.wf(),
        ensures
            self.i < self.tokens.len() ==> r == Some(&self.tokens[self.i as int].kind),
            self.i >= self.tokens.len() ==> r is None,
    {
        if self.i < self.tokens.len() {
            Some(&self.tokens[self.i].kind)
        } else {
            None
        }
    }

    /// An error at the current token, or at the last one past the end.
    fn error(&self, kind: ErrorKind) -> (e: Error)
        ensures
            e.kind == kind,
            self.i < self.tokens.len() ==> e.line == self.tokens[self.i as int].line
                && e.column == self.tokens[self.i as int].column,
            self.i >= self.tokens.len() > 0 ==> e.line == self.tokens@.last().line
                && e.column == self.tokens@.last().column,
            located(self.tokens@, e),
    {
        let n = self.tokens.len();
        if n == 0 {
            return Error { kind, column: 0, line: 0 };
        }
        let i = if self.i < n {
            self.i
        } else {
            n - 1
        };
        let e = Error { kind, column: self.tokens[i].column, line: self.tokens[i].line };
        assert(e.line == self.tokens@[i as int].line);
        e
    }

    /// An error at token `k`, the offending one.
    fn error_at(&self, k: usize, kind: ErrorKind) -> (e: Error)
        requires
            k < self.tokens.len(),
        ensures
            e.kind == kind,
            e.line == self.tokens[k as int].line && e.column == self.tokens[k as int].column,
            located(self.tokens@, e),
    {
        let e = Error { kind, column: self.tokens[k].column, line: self.tokens[k].line };
        assert(e.line == self.tokens@[k as int].line);
        e
    }

    fn expect(&mut self, kind: TokenKind, expecting: &'static str) -> (r: Result<(), Error>)
        requires
            old(self).wf(),
            !(kind is Int || kind is String || kind is Identifier || kind is Variable),
        ensures
            r matches Err(e) ==> located(old(self).tokens@, e),
            final(self).moved_on(old(self)),
            r is Ok <==> old(self).i < old(self).tokens.len() && old(self).at(old(self).i as int)
                == kind@,
            r is Ok ==> final(self).i == old(self).i + 1,
            r matches Err(e) ==> e.kind == ErrorKind::Expecting(expecting),
            r matches Err(e) ==> (old(self).i < old(self).tokens.len() ==> e.line
                == old(self).tokens[old(self).i as int].line && e.column == old(self).tokens[old(
                self,
            ).i as int].column),
    {
        match self.next() {
            Some(k) => {
                if same_unit_kind(&self.tokens[k].kind, &kind) {
                    Ok(())
                } else {
                    Err(self.error_at(k, ErrorKind::Expecting(expecting)))
                }
            },
            None => Err(self.error(ErrorKind::Expecting(expecting))),
        }
    }

    fn parse_name(&mut self) -> (r: Result<String, Error>)
        requires
            old(self).wf(),
        ensures
            r matches Err(e) ==> located(old(self).tokens@, e),
            final(self).moved_on(old(self)),
            match r {
                Ok(n) => old(self).i < old(self).tokens.len() && old(self).at(old(self).i as int)
                    == Tk::Ident(n@) && final(self).i == old(self).i + 1,
                Err(_) => !(old(self).i < old(self).tokens.len() && old(self).at(
                    old(self).i as int,
                ) is Ident),
            },
    {
        match self.next() {
            Some(k) => match &self.tokens[k].kind {
                TokenKind::Identifier(s) => Ok(s.clone()),
                _ => Err(self.error_at(k, ErrorKind::Expecting("identifier"))),
            },
            None => Err(self.error(ErrorKind::Expecting("identifier"))),
        }
    }

    fn parse_type(&mut self) -> (r: Result<Type, Error>)
        requires
            old(self).wf(),
        ensures
            r matches Err(e) ==> located(old(self).tokens@, e),
            final(self).moved_on(old(self)),
            r matches Ok(t) ==> old(self).i < final(self).i && kinds(
                final(self).tokens@,
                old(self).i as int,
                final(self).i as int,
            ) == type_toks(t) && type_wf(t),
            r matches Ok(t) ==> (!(t is NonNull) ==> !(final(self).i < final(self).tokens.len()
                && final(self).at(final(self).i as int) is Exclamation)),
            forall|t: Type|
                writes_type(old(self).tokens@, old(self).i as int, t) ==> (r matches Ok(u)
                    && type_toks(u) == type_toks(t) && final(self).i == old(self).i + type_toks(
                    t,
                ).len()),
        decreases old(self).tokens.len() - old(self).i,
    {
        let ghost start = self.i as int;
        let ghost ts = self.tokens@;
        let k = match self.next() {
            Some(k) => k,
            None => {
                proof {
                    assert forall|t: Type| !writes_type(ts, start, t) by {
                        if writes_type(ts, start, t) {
                            lemma_type_shape(ts, start, t);
                        }
                    }
                }
                return Err(self.error(ErrorKind::Expecting("type")));
            },
        };
        let result = match &self.tokens[k].kind {
            TokenKind::Identifier(name) => Type::Input(name.clone()),
            TokenKind::StringKeyword => Type::String,
            TokenKind::IntKeyword => Type::Int,
            TokenKind::BoolKeyword => Type::Bool,
            TokenKind::OpenSquare => {
                let elem = match self.parse_type() {
                    Ok(e) => e,
                    Err(err) => {
                        proof {
                            assert forall|t: Type| !writes_type(ts, start, t) by {
                                if writes_type(ts, start, t) {
                                    lemma_type_shape(ts, start, t);
                                    let b = nullable_part(t);
                                    if let Type::Array(el) = b {
                                        assert(writes_type(ts, start + 1, *el));
                                    }
                                }
                            }
                        }
                        return Err(err);
                    },
                };
                let ghost mid = self.i as int;
                let close = self.expect(TokenKind::CloseSquare, "]");
                if close.is_err() {
                    proof {
                        assert forall|t: Type| !writes_type(ts, start, t) by {
                            if writes_type(ts, start, t) {
                                lemma_type_shape(ts, start, t);
                                let b = nullable_part(t);
                                if let Type::Array(el) = b {
                                    assert(writes_type(ts, start + 1, *el));
                                }
                            }
                        }
                    }
                    return Err(close.unwrap_err());
                }
                proof {
                    assert(kinds(ts, start, self.i as int) =~= kinds(ts, start, start + 1) + kinds(
                        ts,
                        start + 1,
                        mid,
                    ) + kinds(ts, mid, self.i as int));
                    assert(kinds(ts, start, start + 1) =~= seq![Tk::OpenSquare]);
                    assert(kinds(ts, mid, self.i as int) =~= seq![Tk::CloseSquare]);
                }
                let t = Type::Array(Box::new(elem));
                assert(type_toks(t) == seq![Tk::OpenSquare] + type_toks(elem) + seq![Tk::CloseSquare]);
                t
            },
            _ => {
                proof {
                    assert forall|t: Type| !writes_type(ts, start, t) by {
                        if writes_type(ts, start, t) {
                            lemma_type_shape(ts, start, t);
                        }
                    }
                }
                return Err(self.error_at(k, ErrorKind::Expecting("type")));
            },
        };
        proof {
            assert(kinds(ts, start, self.i as int) =~= type_toks(result));
            assert(type_wf(result));
            // Whatever type the tokens write, its nullable part is `result`'s tokens.
            assert forall|t: Type| writes_type(ts, start, t) implies type_toks(nullable_part(t))
                == type_toks(result) && self.i == start + type_toks(nullable_part(t)).len() by {
                lemma_type_shape(ts, start, t);
                let b = nullable_part(t);
                if let Type::Array(el) = b {
                    assert(writes_type(ts, start + 1, *el));
                    assert(kinds(ts, start, self.i as int) =~= type_toks(result));
                }
            }
        }
        let ghost mid = self.i as int;
        let bang = match self.current() {
            Some(TokenKind::Exclamation) => true,
            _ => false,
        };
        if bang {
            self.next();
            proof {
                assert(kinds(ts, start, self.i as int) =~= kinds(ts, start, mid) + kinds(
                    ts,
                    mid,
                    self.i as int,
                ));
                assert(kinds(ts, mid, self.i as int) =~= seq![Tk::Exclamation]);
                assert forall|t: Type| writes_type(ts, start, t) implies t is NonNull by {
                    lemma_type_shape(ts, start, t);
                }
            }
            let t = Type::NonNull(Box::new(result));
            assert(type_toks(t) == type_toks(result) + seq![Tk::Exclamation]);
            assert(type_wf(t));
            Ok(t)
        } else {
            proof {
                assert forall|t: Type| writes_type(ts, start, t) implies !(t is NonNull) by {
                    lemma_type_shape(ts, start, t);
                }
            }
            Ok(result)
        }
    }

    fn parse_value(&mut self) -> (r: Result<Value, Error>)
        requires
            old(self).wf(),
        ensures
            r matches Err(e) ==> located(old(self).tokens@, e),
            final(self).moved_on(old(self)),
            match r {
                Ok(v) => old(self).i < old(self).tokens.len() && value_tok(v) == Some(
                    old(self).at(old(self).i as int),
                ) && final(self).i == old(self).i + 1,
                Err(_) => !(old(self).i < old(self).tokens.len() && (old(self).at(
                    old(self).i as int,
                ) is Int || old(self).at(old(self).i as int) is Str || old(self).at(
                    old(self).i as int,
                ) is Var)),
            },
    {
        match self.next() {
            Some(k) => match &self.tokens[k].kind {
                TokenKind::Variable(name) => Ok(Value::Variable(name.clone())),
                TokenKind::Int(v) => Ok(Value::Int(*v)),
                TokenKind::String(s) => Ok(Value::String(s.clone())),
                _ => Err(self.error_at(k, ErrorKind::Expecting("Value"))),
            },
            None => Err(self.error(ErrorKind::Expecting("Value"))),
        }
    }

    /// Arguments of a field: `(name: value ...)`, or none where the field goes
    /// straight on to `{`, a name, `...` or `}`.
    #[verifier::loop_isolation(false)]
    fn parse_arguments(&mut self) -> (r: Result<Vec<Argument>, Error>)
        requires
            old(self).wf(),
        ensures
            r matches Err(e) ==> located(old(self).tokens@, e),
            final(self).moved_on(old(self)),
            r is Ok && final(self).i == old(self).i ==> old(self).i < old(self).tokens.len() && (
            old(self).at(old(self).i as int) is OpenBracket || old(self).at(old(self).i as int) is Ident
                || old(self).at(old(self).i as int) is Spread || old(self).at(
                old(self).i as int,
            ) is CloseBracket),
            r is Ok && final(self).i > old(self).i ==> old(self).at(old(self).i as int) is OpenParen
                && old(self).at(final(self).i - 1) is CloseParen,
            r matches Ok(a) ==> (final(self).i == old(self).i ==> a@.len() == 0),
            r matches Ok(a) ==> (final(self).i > old(self).i ==> args_toks(a@) == Some(
                kinds(final(self).tokens@, old(self).i + 1, final(self).i - 1),
            )),
            r matches Ok(a) ==> args_end(a@, old(self).tokens@, old(self).i as int) == Some(
                final(self).i as int,
            ),
            forall|cnt: nat|
                arg_list(old(self).tokens@, old(self).i as int, cnt) ==> (r matches Ok(a) && a@.len()
                    == cnt && final(self).i == old(self).i + 2 + 3 * cnt),
            old(self).i < old(self).tokens.len() && (old(self).at(old(self).i as int) is OpenBracket
                || old(self).at(old(self).i as int) is Ident || old(self).at(old(self).i as int) is Spread
                || old(self).at(old(self).i as int) is CloseBracket) ==> (r matches Ok(a) && a@.len() == 0
                && final(self).i == old(self).i),
    {
        let open = match self.current() {
            Some(TokenKind::OpenParen) => true,
            Some(TokenKind::OpenBracket) | Some(TokenKind::Identifier(_)) | Some(
                TokenKind::Spread,
            ) | Some(TokenKind::CloseBracket) => false,
            _ => {
                proof {
                    assert forall|cnt: nat| !arg_list(old(self).tokens@, old(self).i as int, cnt) by {}
                }
                return Err(self.error(ErrorKind::Expecting("{ or (")));
            },
        };
        let mut args: Vec<Argument> = Vec::new();
        if !open {
            proof {
                assert forall|cnt: nat| !arg_list(old(self).tokens@, old(self).i as int, cnt) by {}
            }
            return Ok(args);
        }
        self.next();
        let ghost first = old(self).i;
        let ghost ts = self.tokens@;
        assert(kinds(self.tokens@, first + 1, self.i as int) =~= Seq::<Tk>::empty());
        loop
            invariant
                self.tokens == old(self).tokens,
                ts == self.tokens@,
                self.module == old(self).module,
                first < self.i <= self.tokens.len(),
                old(self).at(first as int) is OpenParen,
                args_toks(args@) == Some(kinds(self.tokens@, first + 1, self.i as int)),
                self.i == first + 1 + 3 * args.len(),
                forall|m: int| 0 <= m < args.len() ==> #[trigger] arg_at(ts, first as int, m),
                forall|cnt: nat| arg_list(ts, first as int, cnt) ==> args.len() <= cnt,
            decreases self.tokens.len() - self.i,
        {
            let ghost before = self.i as int;
            let ghost done = args@;
            let ghost j = args.len() as int;
            let k = match self.next() {
                Some(k) => k,
                None => {
                    proof {
                        assert forall|cnt: nat| !arg_list(ts, first as int, cnt) by {}
                    }
                    return Err(self.error(ErrorKind::Expecting("identifier")));
                },
            };
            let name = match &self.tokens[k].kind {
                TokenKind::Identifier(name) => name.clone(),
                TokenKind::CloseParen => {
                    proof {
                        assert(kinds(ts, first + 1, before).len() == before - first - 1);
                        assert(ts[before].kind@ is CloseParen);
                        assert forall|cnt: nat| arg_list(ts, first as int, cnt) implies cnt == j by {
                            if cnt > j {
                                assert(arg_at(ts, first as int, j));
                            }
                        }
                    }
                    return Ok(args);
                },
                _ => {
                    proof {
                        assert forall|cnt: nat| !arg_list(ts, first as int, cnt) by {
                            if arg_list(ts, first as int, cnt) && cnt > j {
                                assert(arg_at(ts, first as int, j));
                            }
                        }
                    }
                    return Err(self.error_at(k, ErrorKind::Expecting("identifier")));
                },
            };
            let colon = self.expect(TokenKind::Colon, ":");
            if colon.is_err() {
                proof {
                    assert forall|cnt: nat| !arg_list(ts, first as int, cnt) by {
                        if arg_list(ts, first as int, cnt) && cnt > j {
                            assert(arg_at(ts, first as int, j));
                        }
                    }
                }
                return Err(colon.unwrap_err());
            }
            let value = match self.parse_value() {
                Ok(v) => v,
                Err(err) => {
                    proof {
                        assert forall|cnt: nat| !arg_list(ts, first as int, cnt) by {
                            if arg_list(ts, first as int, cnt) && cnt > j {
                                assert(arg_at(ts, first as int, j));
                            }
                        }
                    }
                    return Err(err);
                },
            };
            proof {
                assert(arg_at(ts, first as int, j));
                assert forall|cnt: nat| arg_list(ts, first as int, cnt) implies j + 1 <= cnt by {
                    if cnt == j {
                        assert(ts[first + 1 + 3 * cnt].kind@ is CloseParen);
                    }
                }
            }
            args.push(Argument { name, value });
            proof {
                let ts = self.tokens@;
                assert(args@.drop_last() =~= done);
                assert(kinds(ts, first as int, self.i as int) =~= kinds(ts, first as int, before)
                    + kinds(ts, before, self.i as int));
                assert(kinds(ts, first + 1, self.i as int) =~= kinds(ts, first + 1, before)
                    + kinds(ts, before, self.i as int));
                assert(kinds(ts, before, self.i as int) =~= seq![
                    Tk::Ident(name@),
                    Tk::Colon,
                    value_tok(value)->Some_0,
                ]);
            }
        }
    }

    /// Argument definitions of an operation or fragment: `($name: type ...)`,
    /// or none where `{` follows.
    #[verifier::loop_isolation(false)]
    fn parse_arguments_def(&mut self) -> (r: Result<Vec<ArgumentDef>, Error>)
        requires
            old(self).wf(),
        ensures
            r matches Err(e) ==> located(old(self).tokens@, e),
            final(self).moved_on(old(self)),
            r is Ok && final(self).i == old(self).i ==> old(self).i < old(self).tokens.len()
                && old(self).at(old(self).i as int) is OpenBracket,
            r is Ok && final(self).i > old(self).i ==> old(self).at(old(self).i as int) is OpenParen
                && old(self).at(final(self).i - 1) is CloseParen,
            r matches Ok(a) ==> arg_defs_wf(a@),
            r matches Ok(a) ==> (final(self).i == old(self).i ==> a@.len() == 0),
            r matches Ok(a) ==> (final(self).i > old(self).i ==> kinds(
                final(self).tokens@,
                old(self).i as int,
                final(self).i as int,
            ) == seq![Tk::OpenParen] + arg_defs_toks(a@) + seq![Tk::CloseParen]),
            r matches Ok(a) ==> arg_defs_end(a@, old(self).tokens@, old(self).i as int) == Some(
                final(self).i as int,
            ),
    {
        let open = match self.current() {
            Some(TokenKind::OpenParen) => true,
            Some(TokenKind::OpenBracket) => false,
            _ => return Err(self.error(ErrorKind::Expecting("{ or ("))),
        };
        let mut args: Vec<ArgumentDef> = Vec::new();
        if !open {
            return Ok(args);
        }
        self.next();
        let ghost first = old(self).i;
        assert(kinds(self.tokens@, first as int, self.i as int) =~= seq![Tk::OpenParen]);
        loop
            invariant
                self.tokens == old(self).tokens,
                self.module == old(self).module,
                first < self.i <= self.tokens.len(),
                old(self).at(first as int) is OpenParen,
                forall|k: int| 0 <= k < args.len() ==> type_wf(#[trigger] args[k].kind),
                kinds(self.tokens@, first as int, self.i as int) == seq![Tk::OpenParen] + arg_defs_toks(args@),
            decreases self.tokens.len() - self.i,
        {
            let ghost before = self.i as int;
            let ghost done = args@;
            let k = match self.next() {
                Some(k) => k,
                None => return Err(self.error(ErrorKind::Expecting("identifier"))),
            };
            let name = match &self.tokens[k].kind {
                TokenKind::Variable(name) => name.clone(),
                TokenKind::CloseParen => {
                    proof {
                        let ts = self.tokens@;
                        assert(kinds(ts, first as int, self.i as int) =~= kinds(ts, first as int, before)
                            + kinds(ts, before, self.i as int));
                        assert(kinds(ts, before, self.i as int) =~= seq![Tk::CloseParen]);
                        assert(kinds(ts, first + 1, before) =~= kinds(ts, first as int, before).drop_first());
                        assert((seq![Tk::OpenParen] + arg_defs_toks(args@)).drop_first() =~= arg_defs_toks(args@));
                        assert(kinds(ts, first as int, before).len() == before - first);
                        assert(ts[before].kind@ is CloseParen);
                    }
                    return Ok(args);
                },
                _ => return Err(self.error_at(k, ErrorKind::Expecting("identifier"))),
            };
            self.expect(TokenKind::Colon, ":")?;
            let ghost mid = self.i as int;
            let kind = self.parse_type()?;
            args.push(ArgumentDef { name, kind });
            proof {
                let ts = self.tokens@;
                assert(args@.drop_last() =~= done);
                assert(kinds(ts, first as int, self.i as int) =~= kinds(ts, first as int, before)
                    + kinds(ts, before, mid) + kinds(ts, mid, self.i as int));
                assert(kinds(ts, before, mid) =~= seq![Tk::Var(name@), Tk::Colon]);
            }
        }
    }

    /// A braced selection: `{` field* `}`.
    #[verifier::loop_isolation(false)]
    fn parse_fields(&mut self) -> (r: Result<Vec<Field>, Error>)
        requires
            old(self).wf(),
        ensures
            r matches Err(e) ==> located(old(self).tokens@, e),
            final(self).moved_on(old(self)),
            r is Ok ==> old(self).i + 2 <= final(self).i && old(self).at(old(self).i as int)
                is OpenBracket && old(self).at(final(self).i - 1) is CloseBracket,
            r matches Ok(fs) ==> selection_wf(fs@),
            r matches Ok(fs) ==> selection_end(fs@, old(self).tokens@, old(self).i as int) == Some(
                final(self).i as int,
            ),
            !(old(self).i < old(self).tokens.len() && old(self).at(old(self).i as int) is OpenBracket)
                ==> (r matches Err(e) && e.kind == ErrorKind::Expecting("{")),
            old(self).i < old(self).tokens.len() && !(old(self).at(old(self).i as int) is OpenBracket)
                ==> (r matches Err(e) && e.line == old(self).tokens[old(self).i as int].line
                && e.column == old(self).tokens[old(self).i as int].column),
        decreases old(self).tokens.len() - old(self).i, 0nat,
    {
        self.expect(TokenKind::OpenBracket, "{")?;
        let mut fields: Vec<Field> = Vec::new();
        loop
            invariant
                self.tokens == old(self).tokens,
                self.module == old(self).module,
                old(self).i < self.i <= self.tokens.len(),
                old(self).at(old(self).i as int) is OpenBracket,
                selection_wf(fields@),
                items_end(fields@, self.tokens@, old(self).i + 1) == Some(self.i as int),
            decreases self.tokens.len() - self.i,
        {
            let close = match self.current() {
                Some(TokenKind::CloseBracket) => true,
                Some(_) => false,
                None => return Err(self.error(ErrorKind::Expecting("}"))),
            };
            if close {
                self.next();
                return Ok(fields);
            }
            let ghost at = self.i as int;
            let f = self.parse_field()?;
            let ghost before = fields@;
            fields.push(f);
            assert(fields@.drop_last() =~= before);
            assert(items_end(fields@, self.tokens@, old(self).i + 1) == field_end(f, self.tokens@, at));
        }
    }

    /// A nested selection where the next token is `{`; none where it is a
    /// name, `}` or `...`.
    fn parse_optional_fields(&mut self) -> (r: Result<Vec<Field>, Error>)
        requires
            old(self).wf(),
        ensures
            r matches Err(e) ==> located(old(self).tokens@, e),
            final(self).moved_on(old(self)),
            r matches Ok(f) ==> (final(self).i == old(self).i <==> !(old(self).at(
                old(self).i as int,
            ) is OpenBracket)),
            r matches Ok(f) ==> selection_wf(f@),
            r matches Ok(f) ==> if old(self).i < old(self).tokens.len() && old(self).at(
                old(self).i as int,
            ) is OpenBracket {
                selection_end(f@, old(self).tokens@, old(self).i as int) == Some(final(self).i as int)
            } else {
                f@.len() == 0 && final(self).i == old(self).i
            },
            old(self).i < old(self).tokens.len() && (old(self).at(old(self).i as int) is Ident
                || old(self).at(old(self).i as int) is CloseBracket || old(self).at(
                old(self).i as int,
            ) is Spread) ==> (r matches Ok(f) && f@.len() == 0 && final(self).i == old(self).i),
            !(old(self).i < old(self).tokens.len() && (old(self).at(old(self).i as int) is Ident
                || old(self).at(old(self).i as int) is CloseBracket || old(self).at(
                old(self).i as int,
            ) is Spread || old(self).at(old(self).i as int) is OpenBracket)) ==> (r matches Err(e)
                && e.kind is Expecting),
        decreases old(self).tokens.len() - old(self).i, 1nat,
    {
        let open = match self.current() {
            Some(TokenKind::Identifier(_)) | Some(TokenKind::CloseBracket) | Some(
                TokenKind::Spread,
            ) => false,
            Some(TokenKind::OpenBracket) => true,
            _ => return Err(self.error(ErrorKind::Expecting("{ or \n"))),
        };
        if open {
            self.parse_fields()
        } else {
            Ok(Vec::new())
        }
    }

    fn parse_plain_field(&mut self, name: String) -> (r: Result<PlainField, Error>)
        requires
            old(self).wf(),
            old(self).i >= 1,
            old(self).at(old(self).i - 1) == Tk::Ident(name@),
        ensures
            r matches Err(e) ==> located(old(self).tokens@, e),
            final(self).moved_on(old(self)),
            r matches Ok(f) ==> f.name == name && selection_wf(f.fields@),
            r matches Ok(f) ==> field_end(Field::PlainField(f), old(self).tokens@, old(self).i - 1)
                == Some(final(self).i as int),
        decreases old(self).tokens.len() - old(self).i, 2nat,
    {
        let args = self.parse_arguments()?;
        let fields = self.parse_optional_fields()?;
        Ok(PlainField { name, args, fields })
    }

    /// What follows `...`: a fragment's name, or `on` type and a selection.
    fn parse_spread(&mut self) -> (r: Result<Field, Error>)
        requires
            old(self).wf(),
            old(self).i >= 1,
            old(self).at(old(self).i - 1) is Spread,
        ensures
            r matches Err(e) ==> located(old(self).tokens@, e),
            r matches Ok(f) ==> field_end(f, old(self).tokens@, old(self).i - 1) == Some(
                final(self).i as int,
            ),
            final(self).moved_on(old(self)),
            r is Ok ==> old(self).i < final(self).i,
            r matches Ok(Field::Fragment(n)) ==> old(self).at(old(self).i as int) == Tk::Ident(
                n@,
            ) && final(self).i == old(self).i + 1,
            r is Ok ==> !(r->Ok_0 is PlainField),
            r matches Ok(f) ==> field_wf(f),
        decreases old(self).tokens.len() - old(self).i, 0nat,
    {
        let k = match self.next() {
            Some(k) => k,
            None => return Err(self.error(ErrorKind::Expecting("inline fragment or fragment"))),
        };
        let on_keyword = match &self.tokens[k].kind {
            TokenKind::Identifier(name) => {
                return Ok(Field::Fragment(name.clone()));
            },
            TokenKind::OnKeyword => true,
            _ => false,
        };
        if !on_keyword {
            return Err(self.error_at(k, ErrorKind::Expecting("inline fragment or fragment")));
        }
        let ghost type_start = self.i as int;
        let on = self.parse_type()?;
        let fields = self.parse_fields()?;
        Ok(Field::InlineFragment(InlineFragment { on, fields }))
    }

    fn parse_field(&mut self) -> (r: Result<Field, Error>)
        requires
            old(self).wf(),
        ensures
            r matches Err(e) ==> located(old(self).tokens@, e),
            final(self).moved_on(old(self)),
            r is Ok ==> old(self).i < final(self).i,
            r matches Ok(Field::PlainField(f)) ==> old(self).at(old(self).i as int) == Tk::Ident(
                f.name@,
            ),
            r is Ok && !(r->Ok_0 is PlainField) ==> old(self).at(old(self).i as int) is Spread,
            r matches Ok(f) ==> field_wf(f),
            r matches Ok(f) ==> field_end(f, old(self).tokens@, old(self).i as int) == Some(
                final(self).i as int,
            ),
        decreases old(self).tokens.len() - old(self).i, 0nat,
    {
        let k = match self.next() {
            Some(k) => k,
            None => return Err(self.error(ErrorKind::Expecting("field or spread"))),
        };
        let name = match &self.tokens[k].kind {
            TokenKind::Identifier(name) => name.clone(),
            TokenKind::Spread => {
                return self.parse_spread();
            },
            _ => return Err(self.error_at(k, ErrorKind::Expecting("field or spread"))),
        };
        let f = self.parse_plain_field(name)?;
        Ok(Field::PlainField(f))
    }

    /// Parses one top-level item after its keyword and records it.
    fn parse_query(&mut self) -> (r: Result<(), Error>)
        requires
            old(self).wf(),
            document_wf(old(self).module),
            old(self).i >= 1,
            old(self).at(old(self).i - 1) is Query,
        ensures
            r matches Err(e) ==> located(old(self).tokens@, e),
            r is Ok ==> final(self).module.queries@.drop_last() == old(self).module.queries@
                && query_end(final(self).module.queries@.last(), old(self).tokens@, old(self).i - 1) == Some(
                final(self).i as int,
            ),
            r is Err ==> final(self).module == old(self).module,
            document_wf(final(self).module),
            final(self).tokens == old(self).tokens,
            old(self).i <= final(self).i <= final(self).tokens.len(),
            r is Ok ==> final(self).module.queries@.len() == old(self).module.queries@.len() + 1
                && final(self).module.fragments == old(self).module.fragments
                && final(self).module.mutations == old(self).module.mutations,
    {
        let name = self.parse_name()?;
        let args = self.parse_arguments_def()?;
        let fields = self.parse_fields()?;
        let ghost before = self.module;
        self.module.queries.push(Query { name, args, fields });
        proof {
            assert forall|k: int| 0 <= k < self.module.queries@.len() implies {
                let q = #[trigger] self.module.queries@[k];
                arg_defs_wf(q.args@) && selection_wf(q.fields@)
            } by {
                if k < before.queries@.len() {
                    assert(self.module.queries@[k] == before.queries@[k]);
                }
            }
            assert(self.module.queries@.drop_last() =~= before.queries@);
        }
        Ok(())
    }

    fn parse_mutation(&mut self) -> (r: Result<(), Error>)
        requires
            old(self).wf(),
            document_wf(old(self).module),
            old(self).i >= 1,
            old(self).at(old(self).i - 1) is Mutation,
        ensures
            r matches Err(e) ==> located(old(self).tokens@, e),
            r is Ok ==> final(self).module.mutations@.drop_last() == old(self).module.mutations@
                && mutation_end(final(self).module.mutations@.last(), old(self).tokens@, old(self).i - 1) == Some(
                final(self).i as int,
            ),
            r is Err ==> final(self).module == old(self).module,
            document_wf(final(self).module),
            final(self).tokens == old(self).tokens,
            old(self).i <= final(self).i <= final(self).tokens.len(),
            r is Ok ==> final(self).module.mutations@.len() == old(self).module.mutations@.len()
                + 1 && final(self).module.fragments == old(self).module.fragments
                && final(self).module.queries == old(self).module.queries,
    {
        let name = self.parse_name()?;
        let args = self.parse_arguments_def()?;
        let fields = self.parse_optional_fields()?;
        let ghost before = self.module;
        self.module.mutations.push(Mutation { name, args, fields });
        proof {
            assert forall|k: int| 0 <= k < self.module.mutations@.len() implies {
                let m = #[trigger] self.module.mutations@[k];
                arg_defs_wf(m.args@) && selection_wf(m.fields@)
            } by {
                if k < before.mutations@.len() {
                    assert(self.module.mutations@[k] == before.mutations@[k]);
                }
            }
            assert(self.module.mutations@.drop_last() =~= before.mutations@);
        }
        Ok(())
    }

    fn parse_fragment(&mut self) -> (r: Result<(), Error>)
        requires
            old(self).wf(),
            document_wf(old(self).module),
            old(self).i >= 1,
            old(self).at(old(self).i - 1) is Fragment,
        ensures
            r matches Err(e) ==> located(old(self).tokens@, e),
            r is Ok ==> final(self).module.fragments@.drop_last() == old(self).module.fragments@
                && fragment_end(final(self).module.fragments@.last(), old(self).tokens@, old(self).i - 1) == Some(
                final(self).i as int,
            ),
            r is Err ==> final(self).module == old(self).module,
            document_wf(final(self).module),
            final(self).tokens == old(self).tokens,
            old(self).i <= final(self).i <= final(self).tokens.len(),
            r is Ok ==> final(self).module.fragments@.len() == old(self).module.fragments@.len()
                + 1 && final(self).module.queries == old(self).module.queries
                && final(self).module.mutations == old(self).module.mutations,
    {
        let name = self.parse_name()?;
        self.expect(TokenKind::OnKeyword, "on")?;
        let ghost type_start = self.i as int;
        let on = self.parse_type()?;
        let args = self.parse_arguments_def()?;
        let fields = self.parse_fields()?;
        let ghost before = self.module;
        self.module.fragments.push(Fragment { name, on, args, fields });
        proof {
            assert forall|k: int| 0 <= k < self.module.fragments@.len() implies {
                let f = #[trigger] self.module.fragments@[k];
                type_wf(f.on) && arg_defs_wf(f.args@) && selection_wf(f.fields@)
            } by {
                if k < before.fragments@.len() {
                    assert(self.module.fragments@[k] == before.fragments@[k]);
                }
            }
            assert(self.module.fragments@.drop_last() =~= before.fragments@);
        }
        Ok(())
    }

    fn parse_toplevel(&mut self) -> (r: Result<(), Error>)
        requires
            old(self).wf(),
            document_wf(old(self).module),
        ensures
            r matches Err(e) ==> located(old(self).tokens@, e),
            r is Err ==> final(self).module == old(self).module,
            document_wf(final(self).module),
            final(self).tokens == old(self).tokens,
            final(self).wf(),
            r is Ok ==> old(self).i < final(self).i && starts_item(
                old(self).at(old(self).i as int),
            ) && item_count(final(self).module) == item_count(old(self).module) + 1,
            r is Ok ==> {
                let (o, f) = (old(self).module, final(self).module);
                let (ts, a, b) = (old(self).tokens@, old(self).i as int, final(self).i as int);
                ||| f.queries@.drop_last() == o.queries@ && f.mutations == o.mutations && f.fragments
                    == o.fragments && query_end(f.queries@.last(), ts, a) == Some(b)
                ||| f.mutations@.drop_last() == o.mutations@ && f.queries == o.queries && f.fragments
                    == o.fragments && mutation_end(f.mutations@.last(), ts, a) == Some(b)
                ||| f.fragments@.drop_last() == o.fragments@ && f.queries == o.queries && f.mutations
                    == o.mutations && fragment_end(f.fragments@.last(), ts, a) == Some(b)
            },
    {
        let k = match self.next() {
            Some(k) => k,
            None => {
                return Err(
                    self.error(
                        ErrorKind::Expecting(
                            "Top level consists only of query,mutation or fragment",
                        ),
                    ),
                )
            },
        };
        match &self.tokens[k].kind {
            TokenKind::MutationKeyword => self.parse_mutation(),
            TokenKind::QueryKeyword => self.parse_query(),
            TokenKind::FragmentKeyword => self.parse_fragment(),
            _ => Err(
                self.error_at(
                    k,
                    ErrorKind::Expecting("Top level consists only of query,mutation or fragment"),
                ),
            ),
        }
    }
}

/// One more run keeps each earlier item at its run; an item added at the end
/// and written by the new run takes that run.
proof fn lemma_queries_step(
    items0: Seq<Query>,
    items: Seq<Query>,
    ts: Seq<Token>,
    b0: Seq<int>,
    idx0: Seq<int>,
    e: int,
) -> (idx: Seq<int>)
    requires
        b0.len() >= 1,
        queries_at(items0, ts, b0, idx0),
        items == items0 || (items.len() > 0 && items.drop_last() == items0 && query_end(
            items.last(),
            ts,
            b0.last(),
        ) == Some(e)),
    ensures
        queries_at(items, ts, b0.push(e), idx),
{
    let b = b0.push(e);
    if items == items0 {
        assert forall|j: int| 0 <= j < items.len() implies 0 <= #[trigger] idx0[j] < b.len() - 1
            && query_end(items[j], ts, b[idx0[j]]) == Some(b[idx0[j] + 1]) by {
            assert(b[idx0[j]] == b0[idx0[j]]);
            assert(b[idx0[j] + 1] == b0[idx0[j] + 1]);
        }
        idx0
    } else {
        let idx = idx0.push(b0.len() - 1);
        assert forall|j: int| 0 <= j < items.len() implies 0 <= #[trigger] idx[j] < b.len() - 1
            && query_end(items[j], ts, b[idx[j]]) == Some(b[idx[j] + 1]) by {
            if j < items0.len() {
                assert(items[j] == items0[j]);
                assert(idx[j] == idx0[j]);
                assert(b[idx0[j]] == b0[idx0[j]]);
                assert(b[idx0[j] + 1] == b0[idx0[j] + 1]);
            } else {
                assert(items[j] == items.last());
                assert(idx[j] == b0.len() - 1);
            }
        }
        assert forall|a: int, c: int| 0 <= a < c < idx.len() implies idx[a] < idx[c] by {
            if c < idx0.len() {
                assert(idx[a] == idx0[a] && idx[c] == idx0[c]);
            } else {
                assert(idx[a] == idx0[a]);
                assert(0 <= idx0[a] < b0.len() - 1);
            }
        }
        idx
    }
}

/// One more run keeps each earlier item at its run; an item added at the end
/// and written by the new run takes that run.
proof fn lemma_mutations_step(
    items0: Seq<Mutation>,
    items: Seq<Mutation>,
    ts: Seq<Token>,
    b0: Seq<int>,
    idx0: Seq<int>,
    e: int,
) -> (idx: Seq<int>)
    requires
        b0.len() >= 1,
        mutations_at(items0, ts, b0, idx0),
        items == items0 || (items.len() > 0 && items.drop_last() == items0 && mutation_end(
            items.last(),
            ts,
            b0.last(),
        ) == Some(e)),
    ensures
        mutations_at(items, ts, b0.push(e), idx),
{
    let b = b0.push(e);
    if items == items0 {
        assert forall|j: int| 0 <= j < items.len() implies 0 <= #[trigger] idx0[j] < b.len() - 1
            && mutation_end(items[j], ts, b[idx0[j]]) == Some(b[idx0[j] + 1]) by {
            assert(b[idx0[j]] == b0[idx0[j]]);
            assert(b[idx0[j] + 1] == b0[idx0[j] + 1]);
        }
        idx0
    } else {
        let idx = idx0.push(b0.len() - 1);
        assert forall|j: int| 0 <= j < items.len() implies 0 <= #[trigger] idx[j] < b.len() - 1
            && mutation_end(items[j], ts, b[idx[j]]) == Some(b[idx[j] + 1]) by {
            if j < items0.len() {
                assert(items[j] == items0[j]);
                assert(idx[j] == idx0[j]);
                assert(b[idx0[j]] == b0[idx0[j]]);
                assert(b[idx0[j] + 1] == b0[idx0[j] + 1]);
            } else {
                assert(items[j] == items.last());
                assert(idx[j] == b0.len() - 1);
            }
        }
        assert forall|a: int, c: int| 0 <= a < c < idx.len() implies idx[a] < idx[c] by {
            if c < idx0.len() {
                assert(idx[a] == idx0[a] && idx[c] == idx0[c]);
            } else {
                assert(idx[a] == idx0[a]);
                assert(0 <= idx0[a] < b0.len() - 1);
            }
        }
        idx
    }
}

/// One more run keeps each earlier item at its run; an item added at the end
/// and written by the new run takes that run.
proof fn lemma_fragments_step(
    items0: Seq<Fragment>,
    items: Seq<Fragment>,
    ts: Seq<Token>,
    b0: Seq<int>,
    idx0: Seq<int>,
    e: int,
) -> (idx: Seq<int>)
    requires
        b0.len() >= 1,
        fragments_at(items0, ts, b0, idx0),
        items == items0 || (items.len() > 0 && items.drop_last() == items0 && fragment_end(
            items.last(),
            ts,
            b0.last(),
        ) == Some(e)),
    ensures
        fragments_at(items, ts, b0.push(e), idx),
{
    let b = b0.push(e);
    if items == items0 {
        assert forall|j: int| 0 <= j < items.len() implies 0 <= #[trigger] idx0[j] < b.len() - 1
            && fragment_end(items[j], ts, b[idx0[j]]) == Some(b[idx0[j] + 1]) by {
            assert(b[idx0[j]] == b0[idx0[j]]);
            assert(b[idx0[j] + 1] == b0[idx0[j] + 1]);
        }
        idx0
    } else {
        let idx = idx0.push(b0.len() - 1);
        assert forall|j: int| 0 <= j < items.len() implies 0 <= #[trigger] idx[j] < b.len() - 1
            && fragment_end(items[j], ts, b[idx[j]]) == Some(b[idx[j] + 1]) by {
            if j < items0.len() {
                assert(items[j] == items0[j]);
                assert(idx[j] == idx0[j]);
                assert(b[idx0[j]] == b0[idx0[j]]);
                assert(b[idx0[j] + 1] == b0[idx0[j] + 1]);
            } else {
                assert(items[j] == items.last());
                assert(idx[j] == b0.len() - 1);
            }
        }
        assert forall|a: int, c: int| 0 <= a < c < idx.len() implies idx[a] < idx[c] by {
            if c < idx0.len() {
                assert(idx[a] == idx0[a] && idx[c] == idx0[c]);
            } else {
                assert(idx[a] == idx0[a]);
                assert(0 <= idx0[a] < b0.len() - 1);
            }
        }
        idx
    }
}

/// Parses a token sequence into a document. On success every token was taken
/// up by the document's items: they cut the whole sequence into consecutive
/// runs, one per item, each opened by its keyword, and each item is what its
/// run writes. An empty sequence is an empty document.
#[verifier::rlimit(80)]
#[verifier::spinoff_prover]
pub fn parse(tokens: Vec<Token>) -> (r: Result<GraphQL, Error>)
    ensures
        r matches Ok(g) ==> written_by_runs(g, tokens@),
        r matches Ok(g) ==> document_wf(g),
        tokens@.len() == 0 ==> (r matches Ok(g) && item_count(g) == 0),
        r matches Err(e) ==> located(tokens@, e),
{
    let ghost ts = tokens@;
    let mut parser = Parser {
        module: GraphQL { fragments: Vec::new(), queries: Vec::new(), mutations: Vec::new() },
        tokens,
        i: 0,
    };
    let ghost mut bounds: Seq<int> = seq![0];
    let ghost mut qi: Seq<int> = seq![];
    let ghost mut mi: Seq<int> = seq![];
    let ghost mut fi: Seq<int> = seq![];
    while parser.i < parser.tokens.len()
        invariant
            parser.wf(),
            document_wf(parser.module),
            parser.tokens@ == ts,
            ts.len() == 0 ==> bounds.len() == 1,
            ts == tokens@,
            queries_at(parser.module.queries@, ts, bounds, qi),
            mutations_at(parser.module.mutations@, ts, bounds, mi),
            fragments_at(parser.module.fragments@, ts, bounds, fi),
            bounds.len() == item_count(parser.module) + 1,
            bounds[0] == 0,
            bounds.last() == parser.i,
            forall|k: int| 0 <= k < bounds.len() - 1 ==> bounds[k] < #[trigger] bounds[k + 1],
            forall|k: int|
                0 <= k < bounds.len() - 1 ==> starts_item(#[trigger] ts[bounds[k]].kind@),
        decreases parser.tokens.len() - parser.i,
    {
        let ghost old_bounds = bounds;
        let ghost old_module = parser.module;
        parser.parse_toplevel()?;
        proof {
            let g = parser.module;
            let e = parser.i as int;
            qi = lemma_queries_step(old_module.queries@, g.queries@, ts, old_bounds, qi, e);
            mi = lemma_mutations_step(old_module.mutations@, g.mutations@, ts, old_bounds, mi, e);
            fi = lemma_fragments_step(old_module.fragments@, g.fragments@, ts, old_bounds, fi, e);
            bounds = bounds.push(parser.i as int);
            assert forall|k: int| 0 <= k < bounds.len() - 1 implies bounds[k] < #[trigger] bounds[k
                + 1] by {
                if k < old_bounds.len() - 1 {
                    assert(old_bounds[k] < old_bounds[k + 1]);
                }
            }
            assert forall|k: int| 0 <= k < bounds.len() - 1 implies starts_item(
                #[trigger] ts[bounds[k]].kind@,
            ) by {
                if k < old_bounds.len() - 1 {
                    assert(starts_item(ts[old_bounds[k]].kind@));
                }
            }
        }
    }
    assert(items_cover(ts, bounds));
    assert(queries_at(parser.module.queries@, tokens@, bounds, qi) && mutations_at(
        parser.module.mutations@,
        tokens@,
        bounds,
        mi,
    ) && fragments_at(parser.module.fragments@, tokens@, bounds, fi) && items_cover(tokens@, bounds));
    let g = parser.module;
    assert(written_by_runs(g, tokens@));
    Ok(g)
}

} // verus!
