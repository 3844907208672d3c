use vstd::prelude::*;
use vstd::string::StrSliceExecFns;
use vstd::string::StringExecFns;
use crate::text::same_text;

verus! {

/// The kind of a token, as the parser sees it.
pub enum TokenKind {
    FragmentKeyword,
    QueryKeyword,
    MutationKeyword,
    OnKeyword,
    StringKeyword,
    IntKeyword,
    BoolKeyword,
    Spread,
    OpenParen,
    CloseParen,
    OpenSquare,
    CloseSquare,
    Exclamation,
    OpenBracket,
    CloseBracket,
    Colon,
    Int(i32),
    String(String),
    Identifier(String),
    Variable(String),
}

/// A token with the 1-based line and the 0-based column of its first character.
pub struct Token {
    pub kind: TokenKind,
    pub column: u32,
    pub line: u32,
}

/// Where an error was found: the file, the 1-based line and the 0-based column.
pub struct ErrorLocation {
    pub path: String,
    pub column: u32,
    pub line: u32,
}

pub enum ErrorKind {
    /// A construct was expected and something else was found
    /// (a malformed `...`, an integer literal too large for 32 bits).
    Expecting(&'static str),
    /// A character that starts no token.
    Unexpected(char),
}

pub struct Error {
    pub location: ErrorLocation,
    pub kind: ErrorKind,
}

/// The mathematical value of a token kind: names as character sequences.
pub enum Tk {
    Fragment,
    Query,
    Mutation,
    On,
    StringKw,
    IntKw,
    BoolKw,
    Spread,
    OpenParen,
    CloseParen,
    OpenSquare,
    CloseSquare,
    Exclamation,
    OpenBracket,
    CloseBracket,
    Colon,
    Int(int),
    Str(Seq<char>),
    Ident(Seq<char>),
    Var(Seq<char>),
}

/// A token as a mathematical value.
pub struct TokenModel {
    pub kind: Tk,
    pub line: int,
    pub column: int,
}

/// What a lexing failure is, without the file.
pub enum Fault {
    Unexpected(char),
    /// What was expected, in words.
    Expecting(Seq<char>),
}

pub struct FaultAt {
    pub fault: Fault,
    pub line: int,
    pub column: int,
}

impl View for TokenKind {
    type V = Tk;

    open spec fn view(&self) -> Tk {
        match self {
            TokenKind::FragmentKeyword => Tk::Fragment,
            TokenKind::QueryKeyword => Tk::Query,
            TokenKind::MutationKeyword => Tk::Mutation,
            TokenKind::OnKeyword => Tk::On,
            TokenKind::StringKeyword => Tk::StringKw,
            TokenKind::IntKeyword => Tk::IntKw,
            TokenKind::BoolKeyword => Tk::BoolKw,
            TokenKind::Spread => Tk::Spread,
            TokenKind::OpenParen => Tk::OpenParen,
            TokenKind::CloseParen => Tk::CloseParen,
            TokenKind::OpenSquare => Tk::OpenSquare,
            TokenKind::CloseSquare => Tk::CloseSquare,
            TokenKind::Exclamation => Tk::Exclamation,
            TokenKind::OpenBracket => Tk::OpenBracket,
            TokenKind::CloseBracket => Tk::CloseBracket,
            TokenKind::Colon => Tk::Colon,
            TokenKind::Int(v) => Tk::Int(*v as int),
            TokenKind::String(s) => Tk::Str(s@),
            TokenKind::Identifier(s) => Tk::Ident(s@),
            TokenKind::Variable(s) => Tk::Var(s@),
        }
    }
}

impl View for Token {
    type V = TokenModel;

    open spec fn view(&self) -> TokenModel {
        TokenModel { kind: self.kind@, line: self.line as int, column: self.column as int }
    }
}

impl Error {
    pub open spec fn fault_at(&self) -> FaultAt {
        FaultAt {
            fault: match self.kind {
                ErrorKind::Expecting(what) => Fault::Expecting(what@),
                ErrorKind::Unexpected(c) => Fault::Unexpected(c),
            },
            line: self.location.line as int,
            column: self.location.column as int,
        }
    }
}

pub open spec fn tokens_model(ts: Seq<Token>) -> Seq<TokenModel> {
    ts.map_values(|t: Token| t@)
}

pub open spec fn is_digit(c: char) -> bool {
    '0' <= c <= '9'
}

pub open spec fn is_ident_start(c: char) -> bool {
    ('A' <= c <= 'Z') || ('a' <= c <= 'z') || c == '_'
}

pub open spec fn is_ident_char(c: char) -> bool {
    is_ident_start(c) || is_digit(c)
}

pub open spec fn is_skipped(c: char) -> bool {
    c == ' ' || c == ',' || c == '\r' || c == '\t'
}

/// The token of a one-character punctuation mark.
pub open spec fn punct(c: char) -> Option<Tk> {
    if c == ':' {
        Some(Tk::Colon)
    } else if c == '{' {
        Some(Tk::OpenBracket)
    } else if c == '}' {
        Some(Tk::CloseBracket)
    } else if c == '(' {
        Some(Tk::OpenParen)
    } else if c == ')' {
        Some(Tk::CloseParen)
    } else if c == '[' {
        Some(Tk::OpenSquare)
    } else if c == ']' {
        Some(Tk::CloseSquare)
    } else if c == '!' {
        Some(Tk::Exclamation)
    } else {
        None
    }
}

/// End of the maximal run of identifier characters that starts at `i`.
pub open spec fn ident_end(s: Seq<char>, i: int) -> int
    decreases s.len() - i,
{
    if 0 <= i < s.len() && is_ident_char(s[i]) {
        ident_end(s, i + 1)
    } else {
        i
    }
}

/// End of the maximal run of digits that starts at `i`.
pub open spec fn digit_end(s: Seq<char>, i: int) -> int
    decreases s.len() - i,
{
    if 0 <= i < s.len() && is_digit(s[i]) {
        digit_end(s, i + 1)
    } else {
        i
    }
}

/// The number that a sequence of decimal digits writes.
pub open spec fn digits_value(d: Seq<char>) -> int
    decreases d.len(),
{
    if d.len() == 0 {
        0
    } else {
        digits_value(d.drop_last()) * 10 + (d.last() as int - '0' as int)
    }
}

/// Keywords become their own token, any other word an identifier.
pub open spec fn word_kind(w: Seq<char>) -> Tk {
    if w == "fragment"@ {
        Tk::Fragment
    } else if w == "query"@ {
        Tk::Query
    } else if w == "mutation"@ {
        Tk::Mutation
    } else if w == "on"@ {
        Tk::On
    } else if w == "String"@ {
        Tk::StringKw
    } else if w == "Int"@ {
        Tk::IntKw
    } else if w == "Bool"@ {
        Tk::BoolKw
    } else {
        Tk::Ident(w)
    }
}

pub open spec fn prepend(
    t: TokenModel,
    r: Result<Seq<TokenModel>, FaultAt>,
) -> Result<Seq<TokenModel>, FaultAt> {
    match r {
        Ok(ts) => Ok(seq![t] + ts),
        Err(e) => Err(e),
    }
}

pub open spec fn after(
    p: Seq<TokenModel>,
    r: Result<Seq<TokenModel>, FaultAt>,
) -> Result<Seq<TokenModel>, FaultAt> {
    match r {
        Ok(ts) => Ok(p + ts),
        Err(e) => Err(e),
    }
}

pub proof fn lemma_run_ends(s: Seq<char>, i: int)
    requires
        0 <= i <= s.len(),
    ensures
        i <= ident_end(s, i) <= s.len(),
        i <= digit_end(s, i) <= s.len(),
        forall|k: int| i <= k < ident_end(s, i) ==> is_ident_char(#[trigger] s[k]),
        forall|k: int| i <= k < digit_end(s, i) ==> is_digit(#[trigger] s[k]),
    decreases s.len() - i,
{
    if i < s.len() {
        lemma_run_ends(s, i + 1);
    }
}

/// The tokens of `s` from index `i` on, where `i` stands at `line` and `column`;
/// or the first failure.
pub open spec fn lex_from(s: Seq<char>, i: int, line: int, column: int) -> Result<
    Seq<TokenModel>,
    FaultAt,
>
    decreases s.len() - i,
{
    if i < 0 || i >= s.len() {
        Ok(seq![])
    } else {
        let c = s[i];
        let here = |k: Tk| TokenModel { kind: k, line: line, column: column };
        if is_skipped(c) {
            lex_from(s, i + 1, line, column + 1)
        } else if c == '\n' {
            lex_from(s, i + 1, line + 1, 0)
        } else if punct(c) is Some {
            prepend(here(punct(c)->Some_0), lex_from(s, i + 1, line, column + 1))
        } else if c == '.' {
            if i + 2 < s.len() && s[i + 1] == '.' && s[i + 2] == '.' {
                prepend(here(Tk::Spread), lex_from(s, i + 3, line, column + 3))
            } else {
                Err(FaultAt { fault: Fault::Expecting("..."@), line, column })
            }
        } else if is_digit(c) {
            proof {
                lemma_run_ends(s, i + 1);
            }
            let e = digit_end(s, i);
            let v = digits_value(s.subrange(i, e));
            if v > i32::MAX {
                Err(FaultAt { fault: Fault::Expecting("an integer that fits in 32 bits"@), line, column })
            } else {
                prepend(here(Tk::Int(v)), lex_from(s, e, line, column + (e - i)))
            }
        } else if c == '$' || is_ident_start(c) {
            proof {
                lemma_run_ends(s, i + 1);
            }
            let e = ident_end(s, i + 1);
            let k = if c == '$' {
                Tk::Var(s.subrange(i + 1, e))
            } else {
                word_kind(s.subrange(i, e))
            };
            prepend(here(k), lex_from(s, e, line, column + (e - i)))
        } else {
            Err(FaultAt { fault: Fault::Unexpected(c), line, column })
        }
    }
}

/// The tokens of a whole source text, or its first failure.
pub open spec fn lex_spec(s: Seq<char>) -> Result<Seq<TokenModel>, FaultAt> {
    lex_from(s, 0, 1, 0)
}

fn word_token(w: &str) -> (k: TokenKind)
    ensures
        k@ == word_kind(w@),
{
    if same_text(w, "fragment") {
        TokenKind::FragmentKeyword
    } else if same_text(w, "query") {
        TokenKind::QueryKeyword
    } else if same_text(w, "mutation") {
        TokenKind::MutationKeyword
    } else if same_text(w, "on") {
        TokenKind::OnKeyword
    } else if same_text(w, "String") {
        TokenKind::StringKeyword
    } else if same_text(w, "Int") {
        TokenKind::IntKeyword
    } else if same_text(w, "Bool") {
        TokenKind::BoolKeyword
    } else {
        TokenKind::Identifier(String::from_str(w))
    }
}

fn punct_token(c: char) -> (k: Option<TokenKind>)
    ensures
        match k {
            Some(k) => punct(c) == Some(k@),
            None => punct(c) is None,
        },
{
    match c {
        ':' => Some(TokenKind::Colon),
        '{' => Some(TokenKind::OpenBracket),
        '}' => Some(TokenKind::CloseBracket),
        '(' => Some(TokenKind::OpenParen),
        ')' => Some(TokenKind::CloseParen),
        '[' => Some(TokenKind::OpenSquare),
        ']' => Some(TokenKind::CloseSquare),
        '!' => Some(TokenKind::Exclamation),
        _ => None,
    }
}

fn error_at(path: &str, line: u32, column: u32, kind: ErrorKind) -> (e: Error)
    ensures
        e.location.path@ == path@,
        e.location.line == line,
        e.location.column == column,
        e.kind == kind,
{
    Error { location: ErrorLocation { path: String::from_str(path), column, line }, kind }
}

fn in_run(c: char, digits: bool) -> (r: bool)
    ensures
        r == if digits {
            is_digit(c)
        } else {
            is_ident_char(c)
        },
{
    if digits {
        '0' <= c && c <= '9'
    } else {
        ('A' <= c && c <= 'Z') || ('a' <= c && c <= 'z') || c == '_' || ('0' <= c && c <= '9')
    }
}

/// End of the run of characters from `i` on that are identifier characters
/// (or digits, when `digits` holds).
fn scan_run(src: &str, n: usize, i: usize, digits: bool) -> (e: usize)
    requires
        n == src@.len(),
        i <= n,
    ensures
        digits ==> e == digit_end(src@, i as int),
        !digits ==> e == ident_end(src@, i as int),
{
    let mut e = i;
    while e < n && in_run(src.get_char(e), digits)
        invariant
            i <= e <= n,
            n == src@.len(),
            digits ==> digit_end(src@, i as int) == digit_end(src@, e as int),
            !digits ==> ident_end(src@, i as int) == ident_end(src@, e as int),
        decreases n - e,
    {
        e += 1;
    }
    assert(digits ==> digit_end(src@, e as int) == e);
    assert(!digits ==> ident_end(src@, e as int) == e);
    e
}

/// The value of the digits `src[i..e]`, or `None` when it exceeds `i32::MAX`.
fn digits_to_i32(src: &str, i: usize, e: usize) -> (r: Option<i32>)
    requires
        i <= e <= src@.len(),
        forall|k: int| i <= k < e ==> is_digit(#[trigger] src@[k]),
    ensures
        match r {
            Some(v) => v as int == digits_value(src@.subrange(i as int, e as int)),
            None => digits_value(src@.subrange(i as int, e as int)) > i32::MAX,
        },
{
    let mut v: i32 = 0;
    let mut k = i;
    while k < e
        invariant
            i <= k <= e <= src@.len(),
            forall|j: int| i <= j < e ==> is_digit(#[trigger] src@[j]),
            0 <= v,
            v as int == digits_value(src@.subrange(i as int, k as int)),
        decreases e - k,
    {
        let c = src.get_char(k);
        let d = (c as u32 - '0' as u32) as i32;
        assert(src@.subrange(i as int, k + 1).drop_last() =~= src@.subrange(i as int, k as int));
        if v > (i32::MAX - d) / 10 {
            assert(digits_value(src@.subrange(i as int, k + 1)) > i32::MAX);
            proof {
                lemma_digits_grow(src@, i as int, k as int + 1, e as int);
            }
            return None;
        }
        v = v * 10 + d;
        k += 1;
    }
    Some(v)
}

/// Appending digits never makes the written number smaller.
proof fn lemma_digits_grow(s: Seq<char>, i: int, k: int, e: int)
    requires
        0 <= i <= k <= e <= s.len(),
        forall|j: int| i <= j < e ==> is_digit(#[trigger] s[j]),
    ensures
        digits_value(s.subrange(i, k)) <= digits_value(s.subrange(i, e)),
    decreases e - k,
{
    if k < e {
        lemma_digits_grow(s, i, k + 1, e);
        assert(s.subrange(i, k + 1).drop_last() =~= s.subrange(i, k));
        assert(is_digit(s[k]));
        lemma_digits_nonneg(s.subrange(i, k));
    }
}

proof fn lemma_digits_nonneg(d: Seq<char>)
    requires
        forall|j: int| 0 <= j < d.len() ==> is_digit(#[trigger] d[j]),
    ensures
        digits_value(d) >= 0,
    decreases d.len(),
{
    if d.len() > 0 {
        lemma_digits_nonneg(d.drop_last());
        assert(is_digit(d[d.len() - 1]));
    }
}

/// Splits a source text into tokens. Spaces, tabs, commas and carriage returns
/// separate tokens; a newline also starts a new line. The first character that
/// starts no token ends the run with an error at its place.
pub fn lex(path: &str, src: &str) -> (r: Result<Vec<Token>, Error>)
    requires
        src@.len() < u32::MAX,
    ensures
        match r {
            Ok(ts) => lex_spec(src@) == Ok::<Seq<TokenModel>, FaultAt>(tokens_model(ts@)),
            Err(e) => lex_spec(src@) == Err::<Seq<TokenModel>, FaultAt>(e.fault_at())
                && e.location.path@ == path@,
        },
{
    let n = src.unicode_len();
    let mut tokens: Vec<Token> = Vec::new();
    let mut i: usize = 0;
    let mut line: u32 = 1;
    let mut column: u32 = 0;
    while i < n
        invariant
            n == src@.len() < u32::MAX,
            i <= n,
            line <= i + 1,
            column <= i,
            lex_spec(src@) == after(tokens_model(tokens@), lex_from(src@, i as int, line as int, column as int)),
        decreases n - i,
    {
        let ghost s = src@;
        let ghost before = tokens_model(tokens@);
        let c = src.get_char(i);
        if c == ' ' || c == ',' || c == '\r' || c == '\t' {
            i += 1;
            column += 1;
        } else if c == '\n' {
            i += 1;
            line += 1;
            column = 0;
        } else {
            let start_column = column;
            let (kind, next) = if let Some(k) = punct_token(c) {
                (k, i + 1)
            } else if c == '.' {
                if i + 2 < n && src.get_char(i + 1) == '.' && src.get_char(i + 2) == '.' {
                    (TokenKind::Spread, i + 3)
                } else {
                    return Err(error_at(path, line, column, ErrorKind::Expecting("...")));
                }
            } else if '0' <= c && c <= '9' {
                proof {
                    lemma_run_ends(s, i as int + 1);
                    lemma_run_ends(s, i as int);
                    assert(digit_end(s, i as int) == digit_end(s, i as int + 1));
                }
                let e = scan_run(src, n, i, true);
                match digits_to_i32(src, i, e) {
                    Some(v) => (TokenKind::Int(v), e),
                    None => {
                        return Err(
                            error_at(
                                path,
                                line,
                                column,
                                ErrorKind::Expecting("an integer that fits in 32 bits"),
                            ),
                        );
                    },
                }
            } else if c == '$' || ('A' <= c && c <= 'Z') || ('a' <= c && c <= 'z') || c == '_' {
                proof {
                    lemma_run_ends(s, i as int + 1);
                }
                let e = scan_run(src, n, i + 1, false);
                if c == '$' {
                    (TokenKind::Variable(String::from_str(src.substring_char(i + 1, e))), e)
                } else {
                    (word_token(src.substring_char(i, e)), e)
                }
            } else {
                return Err(error_at(path, line, column, ErrorKind::Unexpected(c)));
            };
            let t = Token { kind, column: start_column, line };
            let ghost tm = t@;
            tokens.push(t);
            column = column + (next - i) as u32;
            i = next;
            proof {
                assert(tokens_model(tokens@) =~= before + seq![tm]);
                let rest = lex_from(s, i as int, line as int, column as int);
                match rest {
                    Ok(ts) => {
                        assert(before + (seq![tm] + ts) =~= (before + seq![tm]) + ts);
                    },
                    Err(_) => {},
                }
            }
        }
    }
    proof {
        assert(tokens_model(tokens@) + seq![] =~= tokens_model(tokens@));
    }
    Ok(tokens)
}

} // verus!
