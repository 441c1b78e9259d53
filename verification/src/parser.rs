//! The grammar of the Tyto DSL and its verified parser.
//!
//! ```text
//! program     := item*
//! item        := "context" block
//!              | "state" IDENT "{" state_item* "}"
//! block       := "{" (IDENT ":" TYPE ","?)* "}"
//! state_item  := "data" block
//!              | "terminal" ";"
//!              | ("success" | "recoverable" | "fatal")? "on" IDENT "->" IDENT ";"
//! ```
//!
//! `IDENT` is a word that starts with an ASCII letter or `_` and goes on with
//! ASCII letters, digits and `_`; `TYPE` is any word, read by `TytoType::parse`.
//! Syntax is checked over the whole input first; an unknown type name is
//! reported only when the input is otherwise well formed, and then the first
//! one in the text is reported.

use vstd::prelude::*;
use crate::ast::{
    TytoProgram, State, Transition, DataBlock, Field, TransitionType, TytoType, SpecField,
    SpecDataBlock, SpecTransition, SpecState, SpecProgram, spec_parse_type, fields_view,
    transitions_view, states_view, block_view, type_result_view,
};
use crate::lexer::{Token, TokenKind, spec_lex, lex, tokens_wf, is_ascii_letter, is_ascii_digit,
    is_ascii_letter_exec, is_ascii_digit_exec,
};
use crate::text::{chars_of, string_from_range, range_equals, decimal, push_decimal};

verus! {

/// What the parser expected where it found something else.
#[derive(Debug, Clone, Copy, PartialEq, Eq, Structural)]
pub enum Expected {
    /// A blank, a comment, punctuation or a word character.
    Character,
    /// `state` or `context`.
    Item,
    /// A name.
    Ident,
    /// A field (`name: Type`) or `}`.
    Field,
    /// A type name.
    TypeName,
    LeftBrace,
    Colon,
    Semicolon,
    Arrow,
    /// The keyword `on`.
    On,
    /// `data`, `terminal`, a transition or `}`.
    StateItem,
}

/// Why a text is not a Tyto program.
#[derive(Debug, Clone)]
pub enum ParseError {
    /// Malformed text at the given line and column (both counted from 1).
    Syntax { line: usize, column: usize, expected: Expected },
    /// A field type that is not a type name.
    Type(String),
}

/// How an expectation reads in a message.
pub open spec fn expected_text(e: Expected) -> Seq<char> {
    match e {
        Expected::Character => "a blank, a comment, punctuation or a word"@,
        Expected::Item => "'state' or 'context'"@,
        Expected::Ident => "a name"@,
        Expected::Field => "a field or '}'"@,
        Expected::TypeName => "a type name"@,
        Expected::LeftBrace => "'{'"@,
        Expected::Colon => "':'"@,
        Expected::Semicolon => "';'"@,
        Expected::Arrow => "'->'"@,
        Expected::On => "'on'"@,
        Expected::StateItem => "'data', 'terminal', a transition or '}'"@,
    }
}

/// The text of a parse error.
pub open spec fn parse_error_message(e: ParseError) -> Seq<char> {
    match e {
        ParseError::Syntax { line, column, expected } => "line "@ + decimal(line as nat)
            + ", column "@ + decimal(column as nat) + ": expected "@ + expected_text(expected),
        ParseError::Type(m) => m@,
    }
}

impl Expected {
    /// How this expectation reads in a message.
    pub fn text(&self) -> (r: &'static str)
        ensures
            r@ == expected_text(*self),
    {
        match self {
            Expected::Character => "a blank, a comment, punctuation or a word",
            Expected::Item => "'state' or 'context'",
            Expected::Ident => "a name",
            Expected::Field => "a field or '}'",
            Expected::TypeName => "a type name",
            Expected::LeftBrace => "'{'",
            Expected::Colon => "':'",
            Expected::Semicolon => "';'",
            Expected::Arrow => "'->'",
            Expected::On => "'on'",
            Expected::StateItem => "'data', 'terminal', a transition or '}'",
        }
    }
}

impl ParseError {
    /// The text of this error (what the program prints for it).
    pub fn message(&self) -> (r: String)
        ensures
            r@ == parse_error_message(*self),
    {
        match self {
            ParseError::Syntax { line, column, expected } => {
                let mut s = "line ".to_owned();
                push_decimal(&mut s, *line);
                s.append(", column ");
                push_decimal(&mut s, *column);
                s.append(": expected ");
                s.append(expected.text());
                s
            },
            ParseError::Type(m) => m.clone(),
        }
    }
}

/// A parse failure as the grammar functions see it: syntax errors carry the
/// character offset where they were found.
pub enum SpecParseError {
    Syntax { offset: nat, expected: Expected },
    Type(Seq<char>),
}

/// The executable form of `SpecParseError`.
pub enum RawError {
    Syntax { offset: usize, expected: Expected },
    Type(String),
}

impl View for RawError {
    type V = SpecParseError;

    open spec fn view(&self) -> SpecParseError {
        match self {
            RawError::Syntax { offset, expected } => SpecParseError::Syntax {
                offset: *offset as nat,
                expected: *expected,
            },
            RawError::Type(m) => SpecParseError::Type(m@),
        }
    }
}

/// The marker type of the Tyto grammar.
pub struct TytoParser;

pub open spec fn opt_text(o: Option<String>) -> Option<Seq<char>> {
    match o {
        Some(s) => Some(s@),
        None => None,
    }
}

// ---------------------------------------------------------------------------
// Keywords and token tests
// ---------------------------------------------------------------------------

pub open spec fn kw_state() -> Seq<char> { seq!['s', 't', 'a', 't', 'e'] }
pub open spec fn kw_context() -> Seq<char> { seq!['c', 'o', 'n', 't', 'e', 'x', 't'] }
pub open spec fn kw_data() -> Seq<char> { seq!['d', 'a', 't', 'a'] }
pub open spec fn kw_terminal() -> Seq<char> { seq!['t', 'e', 'r', 'm', 'i', 'n', 'a', 'l'] }
pub open spec fn kw_on() -> Seq<char> { seq!['o', 'n'] }
pub open spec fn kw_success() -> Seq<char> { seq!['s', 'u', 'c', 'c', 'e', 's', 's'] }
pub open spec fn kw_recoverable() -> Seq<char> {
    seq!['r', 'e', 'c', 'o', 'v', 'e', 'r', 'a', 'b', 'l', 'e']
}
pub open spec fn kw_fatal() -> Seq<char> { seq!['f', 'a', 't', 'a', 'l'] }

pub open spec fn is_ident_start(c: char) -> bool {
    is_ascii_letter(c) || c == '_'
}

pub open spec fn is_ident_char(c: char) -> bool {
    is_ascii_letter(c) || is_ascii_digit(c) || c == '_'
}

pub open spec fn is_ident(w: Seq<char>) -> bool {
    &&& w.len() > 0
    &&& is_ident_start(w[0])
    &&& forall|k: int| 0 <= k < w.len() ==> is_ident_char(w[k])
}

/// A name (of a state, event, target or field) is exactly a word that starts
/// with an ASCII letter or `_` and goes on with ASCII letters, digits or `_`.
pub proof fn lemma_ident_chars(w: Seq<char>)
    ensures
        is_ident(w) <==> {
            &&& w.len() > 0
            &&& ('a' <= w[0] <= 'z' || 'A' <= w[0] <= 'Z' || w[0] == '_')
            &&& forall|k: int|
                0 <= k < w.len() ==> ('a' <= #[trigger] w[k] <= 'z' || 'A' <= w[k] <= 'Z' || '0'
                    <= w[k] <= '9' || w[k] == '_')
        },
{
}

pub open spec fn kind_at(toks: Seq<Token>, p: int, k: TokenKind) -> bool {
    0 <= p < toks.len() && toks[p].kind == k
}

/// The text of the word token at `p`, if there is one.
pub open spec fn word_at(cs: Seq<char>, toks: Seq<Token>, p: int) -> Option<Seq<char>> {
    if kind_at(toks, p, TokenKind::Word) {
        Some(cs.subrange(toks[p].start as int, toks[p].end as int))
    } else {
        None
    }
}

pub open spec fn ident_at(cs: Seq<char>, toks: Seq<Token>, p: int) -> Option<Seq<char>> {
    match word_at(cs, toks, p) {
        Some(w) => if is_ident(w) { Some(w) } else { None },
        None => None,
    }
}

pub open spec fn keyword_at(cs: Seq<char>, toks: Seq<Token>, p: int, kw: Seq<char>) -> bool {
    word_at(cs, toks, p) == Some(kw)
}

pub open spec fn transition_kind(w: Option<Seq<char>>) -> Option<TransitionType> {
    if w == Some(kw_success()) {
        Some(TransitionType::Success)
    } else if w == Some(kw_recoverable()) {
        Some(TransitionType::Recoverable)
    } else if w == Some(kw_fatal()) {
        Some(TransitionType::Fatal)
    } else {
        None
    }
}

/// Where token `p` starts; the end of the input when there is no such token.
pub open spec fn offset_at(cs: Seq<char>, toks: Seq<Token>, p: int) -> nat {
    if 0 <= p < toks.len() {
        toks[p].start as nat
    } else {
        cs.len()
    }
}

pub open spec fn syntax_error(cs: Seq<char>, toks: Seq<Token>, p: int, e: Expected) -> SpecParseError {
    SpecParseError::Syntax { offset: offset_at(cs, toks, p), expected: e }
}

pub open spec fn first_error(terr: Option<Seq<char>>, m: Seq<char>) -> Option<Seq<char>> {
    match terr {
        Some(e) => Some(e),
        None => Some(m),
    }
}

// ---------------------------------------------------------------------------
// The grammar
// ---------------------------------------------------------------------------

/// The fields of a block from token `p` up to and including its `}`,
/// after `fields`; `terr` is the first bad type name met so far.
pub open spec fn spec_fields(
    cs: Seq<char>,
    toks: Seq<Token>,
    p: int,
    fields: Seq<SpecField>,
    terr: Option<Seq<char>>,
) -> Result<(Seq<SpecField>, Option<Seq<char>>, int), SpecParseError>
    decreases toks.len() - p,
{
    if kind_at(toks, p, TokenKind::RightBrace) {
        Ok((fields, terr, p + 1))
    } else {
        match ident_at(cs, toks, p) {
            None => Err(syntax_error(cs, toks, p, Expected::Field)),
            Some(name) => if !kind_at(toks, p + 1, TokenKind::Colon) {
                Err(syntax_error(cs, toks, p + 1, Expected::Colon))
            } else {
                match word_at(cs, toks, p + 2) {
                    None => Err(syntax_error(cs, toks, p + 2, Expected::TypeName)),
                    Some(w) => {
                        let next = if kind_at(toks, p + 3, TokenKind::Comma) {
                            p + 4
                        } else {
                            p + 3
                        };
                        match spec_parse_type(w) {
                            Ok(t) => spec_fields(
                                cs,
                                toks,
                                next,
                                fields.push(SpecField { name, field_type: t }),
                                terr,
                            ),
                            Err(m) => spec_fields(cs, toks, next, fields, first_error(terr, m)),
                        }
                    },
                }
            },
        }
    }
}

pub open spec fn spec_block(cs: Seq<char>, toks: Seq<Token>, p: int, terr: Option<Seq<char>>) -> Result<
    (SpecDataBlock, Option<Seq<char>>, int),
    SpecParseError,
> {
    if !kind_at(toks, p, TokenKind::LeftBrace) {
        Err(syntax_error(cs, toks, p, Expected::LeftBrace))
    } else {
        match spec_fields(cs, toks, p + 1, Seq::empty(), terr) {
            Ok((fs, t, q)) => Ok((SpecDataBlock { fields: fs }, t, q)),
            Err(e) => Err(e),
        }
    }
}

pub open spec fn spec_transition(cs: Seq<char>, toks: Seq<Token>, p: int) -> Result<
    (SpecTransition, int),
    SpecParseError,
> {
    let kind = transition_kind(word_at(cs, toks, p));
    let q = if kind is Some { p + 1 } else { p };
    let tt = match kind {
        Some(k) => k,
        None => TransitionType::Default,
    };
    if !keyword_at(cs, toks, q, kw_on()) {
        Err(syntax_error(cs, toks, q, Expected::On))
    } else {
        match ident_at(cs, toks, q + 1) {
            None => Err(syntax_error(cs, toks, q + 1, Expected::Ident)),
            Some(event) => if !kind_at(toks, q + 2, TokenKind::Arrow) {
                Err(syntax_error(cs, toks, q + 2, Expected::Arrow))
            } else {
                match ident_at(cs, toks, q + 3) {
                    None => Err(syntax_error(cs, toks, q + 3, Expected::Ident)),
                    Some(target) => if !kind_at(toks, q + 4, TokenKind::Semicolon) {
                        Err(syntax_error(cs, toks, q + 4, Expected::Semicolon))
                    } else {
                        Ok((SpecTransition { transition_type: tt, event, target }, q + 5))
                    },
                }
            },
        }
    }
}

/// What a state body holds.
pub struct SpecBody {
    pub transitions: Seq<SpecTransition>,
    pub data: Option<SpecDataBlock>,
    pub is_terminal: bool,
}

/// The items of a state body from token `p` up to and including its `}`.
/// A later `data` block replaces an earlier one.
pub open spec fn spec_state_items(
    cs: Seq<char>,
    toks: Seq<Token>,
    p: int,
    body: SpecBody,
    terr: Option<Seq<char>>,
) -> Result<(SpecBody, Option<Seq<char>>, int), SpecParseError>
    decreases toks.len() - p,
{
    if kind_at(toks, p, TokenKind::RightBrace) {
        Ok((body, terr, p + 1))
    } else if keyword_at(cs, toks, p, kw_data()) {
        match spec_block(cs, toks, p + 1, terr) {
            Ok((b, t, q)) => {
                proof {
                    lemma_block_advances(cs, toks, p + 1, terr);
                }
                spec_state_items(cs, toks, q, SpecBody { data: Some(b), ..body }, t)
            },
            Err(e) => Err(e),
        }
    } else if keyword_at(cs, toks, p, kw_terminal()) {
        if kind_at(toks, p + 1, TokenKind::Semicolon) {
            spec_state_items(cs, toks, p + 2, SpecBody { is_terminal: true, ..body }, terr)
        } else {
            Err(syntax_error(cs, toks, p + 1, Expected::Semicolon))
        }
    } else if keyword_at(cs, toks, p, kw_on()) || transition_kind(word_at(cs, toks, p)) is Some {
        match spec_transition(cs, toks, p) {
            Ok((t, q)) => spec_state_items(
                cs,
                toks,
                q,
                SpecBody { transitions: body.transitions.push(t), ..body },
                terr,
            ),
            Err(e) => Err(e),
        }
    } else {
        Err(syntax_error(cs, toks, p, Expected::StateItem))
    }
}

pub open spec fn empty_body() -> SpecBody {
    SpecBody { transitions: Seq::empty(), data: None, is_terminal: false }
}

/// The program made of the items from token `p` on, after the context and
/// states already read. A later `context` block replaces an earlier one.
pub open spec fn spec_items(
    cs: Seq<char>,
    toks: Seq<Token>,
    p: int,
    context: Option<SpecDataBlock>,
    states: Seq<SpecState>,
    terr: Option<Seq<char>>,
) -> Result<SpecProgram, SpecParseError>
    decreases toks.len() - p,
{
    if p >= toks.len() {
        match terr {
            Some(m) => Err(SpecParseError::Type(m)),
            None => Ok(SpecProgram { context, states }),
        }
    } else if keyword_at(cs, toks, p, kw_context()) {
        match spec_block(cs, toks, p + 1, terr) {
            Ok((b, t, q)) => {
                proof {
                    lemma_block_advances(cs, toks, p + 1, terr);
                }
                spec_items(cs, toks, q, Some(b), states, t)
            },
            Err(e) => Err(e),
        }
    } else if keyword_at(cs, toks, p, kw_state()) {
        match ident_at(cs, toks, p + 1) {
            None => Err(syntax_error(cs, toks, p + 1, Expected::Ident)),
            Some(name) => if !kind_at(toks, p + 2, TokenKind::LeftBrace) {
                Err(syntax_error(cs, toks, p + 2, Expected::LeftBrace))
            } else {
                match spec_state_items(cs, toks, p + 3, empty_body(), terr) {
                    Ok((body, t, q)) => {
                        proof {
                            lemma_state_items_advance(cs, toks, p + 3, empty_body(), terr);
                        }
                        let st = SpecState {
                            name,
                            transitions: body.transitions,
                            data: body.data,
                            is_terminal: body.is_terminal,
                        };
                        spec_items(cs, toks, q, context, states.push(st), t)
                    },
                    Err(e) => Err(e),
                }
            },
        }
    } else {
        Err(syntax_error(cs, toks, p, Expected::Item))
    }
}

/// The meaning of a DSL text: its program, or the first error.
pub open spec fn spec_parse_dsl(cs: Seq<char>) -> Result<SpecProgram, SpecParseError> {
    match spec_lex(cs, 0, Seq::empty()) {
        Ok(toks) => spec_items(cs, toks, 0, None, Seq::empty(), None),
        Err(e) => Err(e),
    }
}

/// The line and column (from 1) of character offset `n`.
pub open spec fn line_col(cs: Seq<char>, n: int) -> (nat, nat)
    decreases n,
{
    if n <= 0 {
        (1, 1)
    } else {
        let (l, c) = line_col(cs, n - 1);
        if cs[n - 1] == '\n' {
            (l + 1, 1)
        } else {
            (l, c + 1)
        }
    }
}

pub proof fn lemma_fields_advance(
    cs: Seq<char>,
    toks: Seq<Token>,
    p: int,
    fields: Seq<SpecField>,
    terr: Option<Seq<char>>,
)
    ensures
        spec_fields(cs, toks, p, fields, terr) matches Ok((_, _, q)) ==> p < q <= toks.len(),
    decreases toks.len() - p,
{
    if !kind_at(toks, p, TokenKind::RightBrace) {
        if let Some(name) = ident_at(cs, toks, p) {
            if kind_at(toks, p + 1, TokenKind::Colon) {
                if let Some(w) = word_at(cs, toks, p + 2) {
                    let next = if kind_at(toks, p + 3, TokenKind::Comma) {
                        p + 4
                    } else {
                        p + 3
                    };
                    match spec_parse_type(w) {
                        Ok(t) => lemma_fields_advance(
                            cs,
                            toks,
                            next,
                            fields.push(SpecField { name, field_type: t }),
                            terr,
                        ),
                        Err(m) => lemma_fields_advance(cs, toks, next, fields, first_error(terr, m)),
                    }
                }
            }
        }
    }
}

pub proof fn lemma_block_advances(cs: Seq<char>, toks: Seq<Token>, p: int, terr: Option<Seq<char>>)
    ensures
        spec_block(cs, toks, p, terr) matches Ok((_, _, q)) ==> p < q <= toks.len(),
{
    lemma_fields_advance(cs, toks, p + 1, Seq::empty(), terr);
}

pub proof fn lemma_state_items_advance(
    cs: Seq<char>,
    toks: Seq<Token>,
    p: int,
    body: SpecBody,
    terr: Option<Seq<char>>,
)
    ensures
        spec_state_items(cs, toks, p, body, terr) matches Ok((_, _, q)) ==> p < q <= toks.len(),
    decreases toks.len() - p,
{
    if kind_at(toks, p, TokenKind::RightBrace) {
    } else if keyword_at(cs, toks, p, kw_data()) {
        lemma_block_advances(cs, toks, p + 1, terr);
        if let Ok((b, t, q)) = spec_block(cs, toks, p + 1, terr) {
            lemma_state_items_advance(cs, toks, q, SpecBody { data: Some(b), ..body }, t);
        }
    } else if keyword_at(cs, toks, p, kw_terminal()) {
        if kind_at(toks, p + 1, TokenKind::Semicolon) {
            lemma_state_items_advance(cs, toks, p + 2, SpecBody { is_terminal: true, ..body }, terr);
        }
    } else if keyword_at(cs, toks, p, kw_on()) || transition_kind(word_at(cs, toks, p)) is Some {
        if let Ok((t, q)) = spec_transition(cs, toks, p) {
            lemma_state_items_advance(
                cs,
                toks,
                q,
                SpecBody { transitions: body.transitions.push(t), ..body },
                terr,
            );
        }
    }
}

// ---------------------------------------------------------------------------
// The grammar piece by piece: fields, data blocks and state bodies
// ---------------------------------------------------------------------------

/// The fields of a block from token `p` through its closing brace, as
/// (name, type text) pairs in order, with the token after the brace; or the
/// syntax error met first. Type names are not read here.
pub open spec fn field_entries(cs: Seq<char>, toks: Seq<Token>, p: int) -> Result<
    (Seq<(Seq<char>, Seq<char>)>, int),
    SpecParseError,
>
    decreases toks.len() - p,
{
    if kind_at(toks, p, TokenKind::RightBrace) {
        Ok((Seq::empty(), p + 1))
    } else {
        match ident_at(cs, toks, p) {
            None => Err(syntax_error(cs, toks, p, Expected::Field)),
            Some(name) => if !kind_at(toks, p + 1, TokenKind::Colon) {
                Err(syntax_error(cs, toks, p + 1, Expected::Colon))
            } else {
                match word_at(cs, toks, p + 2) {
                    None => Err(syntax_error(cs, toks, p + 2, Expected::TypeName)),
                    Some(w) => {
                        let next = if kind_at(toks, p + 3, TokenKind::Comma) {
                            p + 4
                        } else {
                            p + 3
                        };
                        match field_entries(cs, toks, next) {
                            Ok((es, q)) => Ok((seq![(name, w)] + es, q)),
                            Err(e) => Err(e),
                        }
                    },
                }
            },
        }
    }
}

/// The fields whose type names read, each with its type, in order.
pub open spec fn parsed_fields(es: Seq<(Seq<char>, Seq<char>)>) -> Seq<SpecField>
    decreases es.len(),
{
    if es.len() == 0 {
        Seq::empty()
    } else {
        (match spec_parse_type(es[0].1) {
            Ok(t) => seq![SpecField { name: es[0].0, field_type: t }],
            Err(_) => Seq::empty(),
        }) + parsed_fields(es.drop_first())
    }
}

/// The message of the first field whose type name does not read.
pub open spec fn first_type_error(es: Seq<(Seq<char>, Seq<char>)>) -> Option<Seq<char>>
    decreases es.len(),
{
    if es.len() == 0 {
        None
    } else {
        match spec_parse_type(es[0].1) {
            Err(m) => Some(m),
            Ok(_) => first_type_error(es.drop_first()),
        }
    }
}

/// The first type error: the one met before, else the first among `es`.
pub open spec fn first_error_of(terr: Option<Seq<char>>, es: Seq<(Seq<char>, Seq<char>)>) -> Option<
    Seq<char>,
> {
    match terr {
        Some(e) => Some(e),
        None => first_type_error(es),
    }
}

pub proof fn lemma_field_entries_advance(cs: Seq<char>, toks: Seq<Token>, p: int)
    ensures
        field_entries(cs, toks, p) matches Ok((_, q)) ==> p < q <= toks.len(),
    decreases toks.len() - p,
{
    if !kind_at(toks, p, TokenKind::RightBrace) {
        if ident_at(cs, toks, p) is Some && kind_at(toks, p + 1, TokenKind::Colon) && word_at(
            cs,
            toks,
            p + 2,
        ) is Some {
            let next = if kind_at(toks, p + 3, TokenKind::Comma) {
                p + 4
            } else {
                p + 3
            };
            lemma_field_entries_advance(cs, toks, next);
        }
    }
}

/// A field's type is the reading of its type text (`TytoType::parse`): a
/// field `name: w` whose type reads is added with that type; one whose type
/// does not read is left out, and its message becomes the error unless one
/// was met before.
pub proof fn lemma_field_law(
    cs: Seq<char>,
    toks: Seq<Token>,
    p: int,
    fields: Seq<SpecField>,
    terr: Option<Seq<char>>,
    name: Seq<char>,
    w: Seq<char>,
)
    requires
        !kind_at(toks, p, TokenKind::RightBrace),
        ident_at(cs, toks, p) == Some(name),
        kind_at(toks, p + 1, TokenKind::Colon),
        word_at(cs, toks, p + 2) == Some(w),
    ensures
        spec_fields(cs, toks, p, fields, terr) == spec_fields(
            cs,
            toks,
            if kind_at(toks, p + 3, TokenKind::Comma) {
                p + 4
            } else {
                p + 3
            },
            match spec_parse_type(w) {
                Ok(t) => fields.push(SpecField { name, field_type: t }),
                Err(_) => fields,
            },
            match spec_parse_type(w) {
                Ok(_) => terr,
                Err(m) => first_error(terr, m),
            },
        ),
{
}

/// The fields of a block, read in order: those whose type reads, with their
/// types, and the first type error (after `terr`, one met before).
pub proof fn lemma_fields_law(
    cs: Seq<char>,
    toks: Seq<Token>,
    p: int,
    acc: Seq<SpecField>,
    terr: Option<Seq<char>>,
)
    ensures
        spec_fields(cs, toks, p, acc, terr) == match field_entries(cs, toks, p) {
            Ok((es, q)) => Ok((acc + parsed_fields(es), first_error_of(terr, es), q)),
            Err(e) => Err::<(Seq<SpecField>, Option<Seq<char>>, int), SpecParseError>(e),
        },
    decreases toks.len() - p,
{
    if kind_at(toks, p, TokenKind::RightBrace) {
        assert(acc + parsed_fields(Seq::empty()) =~= acc);
    } else if let Some(name) = ident_at(cs, toks, p) {
        if kind_at(toks, p + 1, TokenKind::Colon) {
            if let Some(w) = word_at(cs, toks, p + 2) {
                let next = if kind_at(toks, p + 3, TokenKind::Comma) {
                    p + 4
                } else {
                    p + 3
                };
                let acc2 = match spec_parse_type(w) {
                    Ok(t) => acc.push(SpecField { name, field_type: t }),
                    Err(_) => acc,
                };
                let terr2 = match spec_parse_type(w) {
                    Ok(_) => terr,
                    Err(m) => first_error(terr, m),
                };
                lemma_fields_law(cs, toks, next, acc2, terr2);
                if let Ok((es, q)) = field_entries(cs, toks, next) {
                    let all = seq![(name, w)] + es;
                    assert(all[0] == (name, w));
                    assert(all.drop_first() =~= es);
                    let head = match spec_parse_type(w) {
                        Ok(t) => seq![SpecField { name, field_type: t }],
                        Err(_) => Seq::<SpecField>::empty(),
                    };
                    assert(parsed_fields(all) == head + parsed_fields(es));
                    assert(acc2 + parsed_fields(es) =~= acc + (head + parsed_fields(es)));
                    assert(first_error_of(terr2, es) == first_error_of(terr, all));
                }
            }
        }
    }
}

/// When no type name fails, every field is kept, in order, with its type.
pub proof fn lemma_all_fields_read(es: Seq<(Seq<char>, Seq<char>)>)
    requires
        first_type_error(es) is None,
    ensures
        parsed_fields(es).len() == es.len(),
        forall|k: int|
            0 <= k < es.len() ==> spec_parse_type(es[k].1) == Ok::<TytoType, Seq<char>>(
                (#[trigger] parsed_fields(es)[k]).field_type,
            ) && parsed_fields(es)[k].name == es[k].0,
    decreases es.len(),
{
    if es.len() > 0 {
        let rest = es.drop_first();
        lemma_all_fields_read(rest);
        assert forall|k: int| 0 <= k < es.len() implies spec_parse_type(es[k].1) == Ok::<
            TytoType,
            Seq<char>,
        >((#[trigger] parsed_fields(es)[k]).field_type) && parsed_fields(es)[k].name == es[k].0 by {
            if k > 0 {
                assert(es[k] == rest[k - 1]);
                assert(parsed_fields(es)[k] == parsed_fields(rest)[k - 1]);
            }
        }
    }
}

/// The first type error of a list of fields is the error of its first field
/// whose type does not read.
pub proof fn lemma_first_type_error(es: Seq<(Seq<char>, Seq<char>)>)
    ensures
        match first_type_error(es) {
            Some(m) => exists|k: int|
                0 <= k < es.len() && spec_parse_type(#[trigger] es[k].1) == Err::<TytoType, Seq<char>>(m)
                    && forall|j: int| 0 <= j < k ==> spec_parse_type(es[j].1) is Ok,
            None => forall|k: int| 0 <= k < es.len() ==> spec_parse_type(#[trigger] es[k].1) is Ok,
        },
    decreases es.len(),
{
    if es.len() > 0 {
        let rest = es.drop_first();
        lemma_first_type_error(rest);
        assert forall|k: int| 0 < k < es.len() implies es[k] == rest[k - 1] by {}
        if let Some(m) = first_type_error(es) {
            if spec_parse_type(es[0].1) is Ok {
                let k = choose|k: int|
                    0 <= k < rest.len() && spec_parse_type(#[trigger] rest[k].1) == Err::<
                        TytoType,
                        Seq<char>,
                    >(m) && forall|j: int| 0 <= j < k ==> spec_parse_type(rest[j].1) is Ok;
                assert(es[k + 1] == rest[k]);
                assert forall|j: int| 0 <= j < k + 1 implies spec_parse_type(es[j].1) is Ok by {
                    if j > 0 {
                        assert(es[j] == rest[j - 1]);
                    }
                }
            }
        }
    }
}

/// A data block is its fields in order, or, when a type name fails, the
/// error of its first such field (unless an error was met before, `terr`).
pub proof fn lemma_data_block_law(cs: Seq<char>, toks: Seq<Token>, p: int, terr: Option<Seq<char>>)
    ensures
        spec_block(cs, toks, p, terr) == if !kind_at(toks, p, TokenKind::LeftBrace) {
            Err::<(SpecDataBlock, Option<Seq<char>>, int), SpecParseError>(
                syntax_error(cs, toks, p, Expected::LeftBrace),
            )
        } else {
            match field_entries(cs, toks, p + 1) {
                Ok((es, q)) => Ok(
                    (SpecDataBlock { fields: parsed_fields(es) }, first_error_of(terr, es), q),
                ),
                Err(e) => Err(e),
            }
        },
{
    lemma_fields_law(cs, toks, p + 1, Seq::empty(), terr);
    if let Ok((es, q)) = field_entries(cs, toks, p + 1) {
        assert(Seq::<SpecField>::empty() + parsed_fields(es) =~= parsed_fields(es));
    }
}

/// One item of a state body, as written.
pub enum BodyItem {
    Transition(SpecTransition),
    /// A data block: its fields as (name, type text) pairs.
    Data(Seq<(Seq<char>, Seq<char>)>),
    Terminal,
}

/// The items of a state body from token `p` through its closing brace, in
/// order, with the token after the brace; or the syntax error met first.
/// Type names are not read here.
pub open spec fn state_entries(cs: Seq<char>, toks: Seq<Token>, p: int) -> Result<
    (Seq<BodyItem>, int),
    SpecParseError,
>
    decreases toks.len() - p,
{
    if kind_at(toks, p, TokenKind::RightBrace) {
        Ok((Seq::empty(), p + 1))
    } else if keyword_at(cs, toks, p, kw_data()) {
        if !kind_at(toks, p + 1, TokenKind::LeftBrace) {
            Err(syntax_error(cs, toks, p + 1, Expected::LeftBrace))
        } else {
            match field_entries(cs, toks, p + 2) {
                Ok((es, q)) => {
                    proof {
                        lemma_field_entries_advance(cs, toks, p + 2);
                    }
                    match state_entries(cs, toks, q) {
                        Ok((items, r)) => Ok((seq![BodyItem::Data(es)] + items, r)),
                        Err(e) => Err(e),
                    }
                },
                Err(e) => Err(e),
            }
        }
    } else if keyword_at(cs, toks, p, kw_terminal()) {
        if kind_at(toks, p + 1, TokenKind::Semicolon) {
            match state_entries(cs, toks, p + 2) {
                Ok((items, r)) => Ok((seq![BodyItem::Terminal] + items, r)),
                Err(e) => Err(e),
            }
        } else {
            Err(syntax_error(cs, toks, p + 1, Expected::Semicolon))
        }
    } else if keyword_at(cs, toks, p, kw_on()) || transition_kind(word_at(cs, toks, p)) is Some {
        match spec_transition(cs, toks, p) {
            Ok((t, q)) => match state_entries(cs, toks, q) {
                Ok((items, r)) => Ok((seq![BodyItem::Transition(t)] + items, r)),
                Err(e) => Err(e),
            },
            Err(e) => Err(e),
        }
    } else {
        Err(syntax_error(cs, toks, p, Expected::StateItem))
    }
}

/// The transitions among the items, in order.
pub open spec fn item_transitions(items: Seq<BodyItem>) -> Seq<SpecTransition>
    decreases items.len(),
{
    if items.len() == 0 {
        Seq::empty()
    } else {
        (match items[0] {
            BodyItem::Transition(t) => seq![t],
            _ => Seq::empty(),
        }) + item_transitions(items.drop_first())
    }
}

/// The fields of the last data block among the items, if there is one.
pub open spec fn last_data(items: Seq<BodyItem>) -> Option<Seq<(Seq<char>, Seq<char>)>>
    decreases items.len(),
{
    if items.len() == 0 {
        None
    } else {
        match last_data(items.drop_first()) {
            Some(es) => Some(es),
            None => match items[0] {
                BodyItem::Data(es) => Some(es),
                _ => None,
            },
        }
    }
}

/// Whether `terminal;` is among the items.
pub open spec fn has_terminal(items: Seq<BodyItem>) -> bool {
    exists|k: int| 0 <= k < items.len() && #[trigger] items[k] is Terminal
}

/// The type error of the first data block among the items that has one.
pub open spec fn first_block_error(items: Seq<BodyItem>) -> Option<Seq<char>>
    decreases items.len(),
{
    if items.len() == 0 {
        None
    } else {
        match items[0] {
            BodyItem::Data(es) => match first_type_error(es) {
                Some(m) => Some(m),
                None => first_block_error(items.drop_first()),
            },
            _ => first_block_error(items.drop_first()),
        }
    }
}

/// A state body from token `p` on, after `body` and the type error `terr`
/// already met: its transitions follow in order, the last data block wins,
/// `terminal;` anywhere sets the flag, and the first data block with a bad
/// type name gives the error.
pub proof fn lemma_state_items_law(
    cs: Seq<char>,
    toks: Seq<Token>,
    p: int,
    body: SpecBody,
    terr: Option<Seq<char>>,
)
    ensures
        spec_state_items(cs, toks, p, body, terr) == match state_entries(cs, toks, p) {
            Ok((items, q)) => Ok(
                (
                    SpecBody {
                        transitions: body.transitions + item_transitions(items),
                        data: match last_data(items) {
                            Some(es) => Some(SpecDataBlock { fields: parsed_fields(es) }),
                            None => body.data,
                        },
                        is_terminal: body.is_terminal || has_terminal(items),
                    },
                    match terr {
                        Some(e) => Some(e),
                        None => first_block_error(items),
                    },
                    q,
                ),
            ),
            Err(e) => Err::<(SpecBody, Option<Seq<char>>, int), SpecParseError>(e),
        },
    decreases toks.len() - p,
{
    if kind_at(toks, p, TokenKind::RightBrace) {
        assert(body.transitions + item_transitions(Seq::empty()) =~= body.transitions);
        assert(!has_terminal(Seq::<BodyItem>::empty()));
        assert(SpecBody { transitions: body.transitions, data: body.data, is_terminal: body.is_terminal }
            == body);
    } else if keyword_at(cs, toks, p, kw_data()) {
        lemma_data_block_law(cs, toks, p + 1, terr);
        lemma_field_entries_advance(cs, toks, p + 2);
        if kind_at(toks, p + 1, TokenKind::LeftBrace) {
            if let Ok((es, q)) = field_entries(cs, toks, p + 2) {
                let b = SpecDataBlock { fields: parsed_fields(es) };
                let t = first_error_of(terr, es);
                let body2 = SpecBody { data: Some(b), ..body };
                lemma_state_items_law(cs, toks, q, body2, t);
                if let Ok((items, r)) = state_entries(cs, toks, q) {
                    let all = seq![BodyItem::Data(es)] + items;
                    assert(all[0] == BodyItem::Data(es));
                    assert(all.drop_first() =~= items);
                    assert(item_transitions(all) =~= item_transitions(items));
                    assert(body.transitions + item_transitions(all) =~= body.transitions
                        + item_transitions(items));
                    assert(has_terminal(all) == has_terminal(items)) by {
                        if has_terminal(items) {
                            let k = choose|k: int| 0 <= k < items.len() && #[trigger] items[k] is Terminal;
                            assert(all[k + 1] == items[k]);
                        }
                        if has_terminal(all) {
                            let k = choose|k: int| 0 <= k < all.len() && #[trigger] all[k] is Terminal;
                            assert(k > 0);
                            assert(all[k] == items[k - 1]);
                        }
                    }
                }
            }
        }
    } else if keyword_at(cs, toks, p, kw_terminal()) {
        if kind_at(toks, p + 1, TokenKind::Semicolon) {
            let body2 = SpecBody { is_terminal: true, ..body };
            lemma_state_items_law(cs, toks, p + 2, body2, terr);
            if let Ok((items, r)) = state_entries(cs, toks, p + 2) {
                let all = seq![BodyItem::Terminal] + items;
                assert(all[0] is Terminal);
                assert(has_terminal(all));
                assert(all.drop_first() =~= items);
                assert(item_transitions(all) =~= item_transitions(items));
                assert(body.transitions + item_transitions(all) =~= body.transitions
                    + item_transitions(items));
                assert(last_data(all) == last_data(items));
                assert(first_block_error(all) == first_block_error(items));
            }
        }
    } else if keyword_at(cs, toks, p, kw_on()) || transition_kind(word_at(cs, toks, p)) is Some {
        if let Ok((t, q)) = spec_transition(cs, toks, p) {
            let body2 = SpecBody { transitions: body.transitions.push(t), ..body };
            lemma_state_items_law(cs, toks, q, body2, terr);
            if let Ok((items, r)) = state_entries(cs, toks, q) {
                let all = seq![BodyItem::Transition(t)] + items;
                assert(all[0] == BodyItem::Transition(t));
                assert(all.drop_first() =~= items);
                assert(item_transitions(all) =~= seq![t] + item_transitions(items));
                assert(body.transitions.push(t) + item_transitions(items) =~= body.transitions
                    + item_transitions(all));
                assert(last_data(all) == last_data(items));
                assert(first_block_error(all) == first_block_error(items));
                assert(has_terminal(all) == has_terminal(items)) by {
                    if has_terminal(items) {
                        let k = choose|k: int| 0 <= k < items.len() && #[trigger] items[k] is Terminal;
                        assert(all[k + 1] == items[k]);
                    }
                    if has_terminal(all) {
                        let k = choose|k: int| 0 <= k < all.len() && #[trigger] all[k] is Terminal;
                        assert(k > 0);
                        assert(all[k] == items[k - 1]);
                    }
                }
            }
        }
    }
}

/// A state's body: its transitions in order, its last data block (none when
/// it has none), whether `terminal;` occurs, and as its error the first
/// data block's first bad type name.
pub proof fn lemma_state_body_law(cs: Seq<char>, toks: Seq<Token>, p: int)
    ensures
        spec_state_items(cs, toks, p, empty_body(), None) == match state_entries(cs, toks, p) {
            Ok((items, q)) => Ok(
                (
                    SpecBody {
                        transitions: item_transitions(items),
                        data: match last_data(items) {
                            Some(es) => Some(SpecDataBlock { fields: parsed_fields(es) }),
                            None => None,
                        },
                        is_terminal: has_terminal(items),
                    },
                    first_block_error(items),
                    q,
                ),
            ),
            Err(e) => Err::<(SpecBody, Option<Seq<char>>, int), SpecParseError>(e),
        },
{
    lemma_state_items_law(cs, toks, p, empty_body(), None);
    if let Ok((items, q)) = state_entries(cs, toks, p) {
        assert(Seq::<SpecTransition>::empty() + item_transitions(items) =~= item_transitions(items));
    }
}

/// The first bad data block of a state body gives its error: the error is
/// that of a data block with a bad type name, and every data block before it
/// has none.
pub proof fn lemma_first_block_error(items: Seq<BodyItem>)
    ensures
        match first_block_error(items) {
            Some(m) => exists|k: int|
                0 <= k < items.len() && (#[trigger] items[k] matches BodyItem::Data(es)
                    && first_type_error(es) == Some(m)) && forall|j: int|
                    0 <= j < k ==> (#[trigger] items[j] matches BodyItem::Data(es2)
                        ==> first_type_error(es2) is None),
            None => forall|k: int|
                0 <= k < items.len() ==> (#[trigger] items[k] matches BodyItem::Data(es)
                    ==> first_type_error(es) is None),
        },
    decreases items.len(),
{
    if items.len() > 0 {
        let rest = items.drop_first();
        lemma_first_block_error(rest);
        assert forall|k: int| 0 < k < items.len() implies items[k] == rest[k - 1] by {}
        if let Some(m) = first_block_error(items) {
            let head_err = match items[0] {
                BodyItem::Data(es) => first_type_error(es),
                _ => None,
            };
            if head_err is None {
                let k = choose|k: int|
                    0 <= k < rest.len() && (#[trigger] rest[k] matches BodyItem::Data(es)
                        && first_type_error(es) == Some(m)) && forall|j: int|
                        0 <= j < k ==> (#[trigger] rest[j] matches BodyItem::Data(es2)
                            ==> first_type_error(es2) is None);
                assert(items[k + 1] == rest[k]);
                assert forall|j: int| 0 <= j < k + 1 implies (#[trigger] items[j] matches BodyItem::Data(es2)
                    ==> first_type_error(es2) is None) by {
                    if j > 0 {
                        assert(items[j] == rest[j - 1]);
                    }
                }
            }
        }
    }
}

// ---------------------------------------------------------------------------
// The executable parser
// ---------------------------------------------------------------------------

pub open spec fn fields_result_view(r: Result<(Vec<Field>, Option<String>, usize), RawError>) -> Result<
    (Seq<SpecField>, Option<Seq<char>>, int),
    SpecParseError,
> {
    match r {
        Ok((fs, t, q)) => Ok((fields_view(fs@), opt_text(t), q as int)),
        Err(e) => Err(e@),
    }
}

pub open spec fn block_result_view(r: Result<(DataBlock, Option<String>, usize), RawError>) -> Result<
    (SpecDataBlock, Option<Seq<char>>, int),
    SpecParseError,
> {
    match r {
        Ok((b, t, q)) => Ok((b@, opt_text(t), q as int)),
        Err(e) => Err(e@),
    }
}

pub open spec fn transition_result_view(r: Result<(Transition, usize), RawError>) -> Result<
    (SpecTransition, int),
    SpecParseError,
> {
    match r {
        Ok((t, q)) => Ok((t@, q as int)),
        Err(e) => Err(e@),
    }
}

pub open spec fn body_view(ts: Seq<Transition>, data: Option<DataBlock>, term: bool) -> SpecBody {
    SpecBody { transitions: transitions_view(ts), data: block_view(data), is_terminal: term }
}

pub open spec fn body_result_view(
    r: Result<(Vec<Transition>, Option<DataBlock>, bool, Option<String>, usize), RawError>,
) -> Result<(SpecBody, Option<Seq<char>>, int), SpecParseError> {
    match r {
        Ok((ts, d, tm, t, q)) => Ok((body_view(ts@, d, tm), opt_text(t), q as int)),
        Err(e) => Err(e@),
    }
}

pub open spec fn program_result_view(r: Result<TytoProgram, RawError>) -> Result<
    SpecProgram,
    SpecParseError,
> {
    match r {
        Ok(p) => Ok(p@),
        Err(e) => Err(e@),
    }
}

/// A syntax error of `r`, if any, lies within the input of length `n`.
pub open spec fn offset_within<T>(r: Result<T, RawError>, n: nat) -> bool {
    r matches Err(RawError::Syntax { offset, .. }) ==> offset <= n
}

impl TytoParser {
    fn kind_is(toks: &Vec<Token>, p: usize, d: usize, k: TokenKind) -> (r: bool)
        requires
            p <= toks.len(),
        ensures
            r == kind_at(toks@, p + d, k),
    {
        d < toks.len() - p && toks[p + d].kind == k
    }

    fn word_is(cs: &Vec<char>, toks: &Vec<Token>, p: usize, d: usize, kw: &Vec<char>) -> (r: bool)
        requires
            p <= toks.len(),
            tokens_wf(cs@, toks@),
        ensures
            r == keyword_at(cs@, toks@, p + d, kw@),
    {
        if d < toks.len() - p && toks[p + d].kind == TokenKind::Word {
            let t = toks[p + d];
            assert(toks@[p + d] == t);
            range_equals(cs, t.start, t.end, kw)
        } else {
            false
        }
    }

    fn is_ident_range(cs: &Vec<char>, start: usize, end: usize) -> (r: bool)
        requires
            start <= end <= cs@.len(),
        ensures
            r == is_ident(cs@.subrange(start as int, end as int)),
    {
        let ghost w = cs@.subrange(start as int, end as int);
        if start == end {
            return false;
        }
        let c0 = cs[start];
        if !(is_ascii_letter_exec(c0) || c0 == '_') {
            assert(w[0] == c0);
            return false;
        }
        let mut i = start;
        while i < end
            invariant
                start <= i <= end <= cs@.len(),
                w == cs@.subrange(start as int, end as int),
                forall|k: int| 0 <= k < i - start ==> is_ident_char(w[k]),
            decreases end - i,
        {
            let c = cs[i];
            if !(is_ascii_letter_exec(c) || is_ascii_digit_exec(c) || c == '_') {
                assert(w[i - start] == c);
                return false;
            }
            i = i + 1;
        }
        true
    }

    fn ident_is(cs: &Vec<char>, toks: &Vec<Token>, p: usize, d: usize) -> (r: bool)
        requires
            p <= toks.len(),
            tokens_wf(cs@, toks@),
        ensures
            r == ident_at(cs@, toks@, p + d) is Some,
    {
        if d < toks.len() - p && toks[p + d].kind == TokenKind::Word {
            let t = toks[p + d];
            assert(toks@[p + d] == t);
            Self::is_ident_range(cs, t.start, t.end)
        } else {
            false
        }
    }

    fn error_at(cs: &Vec<char>, toks: &Vec<Token>, p: usize, d: usize, e: Expected) -> (r: RawError)
        requires
            p <= toks.len(),
            tokens_wf(cs@, toks@),
        ensures
            r@ == syntax_error(cs@, toks@, p + d, e),
            (r matches RawError::Syntax { offset, .. } && offset <= cs@.len()),
    {
        let offset = if d < toks.len() - p {
            toks[p + d].start
        } else {
            cs.len()
        };
        RawError::Syntax { offset, expected: e }
    }

    /// The text of token `p`, which must be a word.
    fn word_text(cs: &Vec<char>, toks: &Vec<Token>, p: usize) -> (r: String)
        requires
            tokens_wf(cs@, toks@),
            kind_at(toks@, p as int, TokenKind::Word),
        ensures
            word_at(cs@, toks@, p as int) == Some(r@),
    {
        let t = toks[p];
        assert(toks@[p as int] == t);
        string_from_range(cs, t.start, t.end)
    }

    fn transition_kind_at(cs: &Vec<char>, toks: &Vec<Token>, p: usize) -> (r: Option<TransitionType>)
        requires
            p <= toks.len(),
            tokens_wf(cs@, toks@),
        ensures
            r == transition_kind(word_at(cs@, toks@, p as int)),
    {
        if Self::word_is(cs, toks, p, 0, &vec!['s', 'u', 'c', 'c', 'e', 's', 's']) {
            Some(TransitionType::Success)
        } else if Self::word_is(
            cs,
            toks,
            p,
            0,
            &vec!['r', 'e', 'c', 'o', 'v', 'e', 'r', 'a', 'b', 'l', 'e'],
        ) {
            Some(TransitionType::Recoverable)
        } else if Self::word_is(cs, toks, p, 0, &vec!['f', 'a', 't', 'a', 'l']) {
            Some(TransitionType::Fatal)
        } else {
            None
        }
    }

    /// The fields of a block from token `p0` through its closing brace, in
    /// order; a field whose type name does not read is left out and the first
    /// such name is kept (after `terr0`, one met before).
    pub fn parse_fields(cs: &Vec<char>, toks: &Vec<Token>, p0: usize, terr0: Option<String>) -> (r: Result<
        (Vec<Field>, Option<String>, usize),
        RawError,
    >)
        requires
            p0 <= toks.len(),
            tokens_wf(cs@, toks@),
        ensures
            offset_within(r, cs@.len()),
            fields_result_view(r) == spec_fields(cs@, toks@, p0 as int, Seq::empty(), opt_text(terr0)),
    {
        let mut p = p0;
        let mut fields: Vec<Field> = Vec::new();
        let mut terr = terr0;
        assert(fields_view(fields@) =~= Seq::<SpecField>::empty());
        loop
            invariant
                p <= toks.len(),
                tokens_wf(cs@, toks@),
                spec_fields(cs@, toks@, p0 as int, Seq::empty(), opt_text(terr0)) == spec_fields(
                    cs@,
                    toks@,
                    p as int,
                    fields_view(fields@),
                    opt_text(terr),
                ),
            decreases toks@.len() - p,
        {
            if Self::kind_is(toks, p, 0, TokenKind::RightBrace) {
                return Ok((fields, terr, p + 1));
            }
            if !Self::ident_is(cs, toks, p, 0) {
                return Err(Self::error_at(cs, toks, p, 0, Expected::Field));
            }
            if !Self::kind_is(toks, p, 1, TokenKind::Colon) {
                return Err(Self::error_at(cs, toks, p, 1, Expected::Colon));
            }
            if !Self::kind_is(toks, p, 2, TokenKind::Word) {
                return Err(Self::error_at(cs, toks, p, 2, Expected::TypeName));
            }
            let name = Self::word_text(cs, toks, p);
            let tw = toks[p + 2];
            assert(toks@[p + 2] == tw);
            let ty = TytoType::parse_range(cs, tw.start, tw.end);
            let next = if Self::kind_is(toks, p, 3, TokenKind::Comma) {
                p + 4
            } else {
                p + 3
            };
            let ghost before = fields@;
            match ty {
                Ok(t) => {
                    let f = Field { name, field_type: t };
                    fields.push(f);
                    assert(fields_view(fields@) =~= fields_view(before).push(f@));
                },
                Err(m) => {
                    if terr.is_none() {
                        terr = Some(m);
                    }
                },
            }
            p = next;
        }
    }

    /// The data block whose opening brace is token `p`.
    pub fn parse_block(cs: &Vec<char>, toks: &Vec<Token>, p: usize, terr: Option<String>) -> (r: Result<
        (DataBlock, Option<String>, usize),
        RawError,
    >)
        requires
            p <= toks.len(),
            tokens_wf(cs@, toks@),
        ensures
            offset_within(r, cs@.len()),
            block_result_view(r) == spec_block(cs@, toks@, p as int, opt_text(terr)),
    {
        if !Self::kind_is(toks, p, 0, TokenKind::LeftBrace) {
            return Err(Self::error_at(cs, toks, p, 0, Expected::LeftBrace));
        }
        match Self::parse_fields(cs, toks, p + 1, terr) {
            Ok((fields, t, q)) => Ok((DataBlock { fields }, t, q)),
            Err(e) => Err(e),
        }
    }

    /// The transition (`[kind] on Event -> Target;`) starting at token `p`.
    pub fn parse_transition(cs: &Vec<char>, toks: &Vec<Token>, p: usize) -> (r: Result<
        (Transition, usize),
        RawError,
    >)
        requires
            p <= toks.len(),
            tokens_wf(cs@, toks@),
        ensures
            offset_within(r, cs@.len()),
            transition_result_view(r) == spec_transition(cs@, toks@, p as int),
    {
        let kind = Self::transition_kind_at(cs, toks, p);
        let q = if kind.is_some() { p + 1 } else { p };
        let tt = match kind {
            Some(k) => k,
            None => TransitionType::Default,
        };
        if !Self::word_is(cs, toks, q, 0, &vec!['o', 'n']) {
            return Err(Self::error_at(cs, toks, q, 0, Expected::On));
        }
        if !Self::ident_is(cs, toks, q, 1) {
            return Err(Self::error_at(cs, toks, q, 1, Expected::Ident));
        }
        if !Self::kind_is(toks, q, 2, TokenKind::Arrow) {
            return Err(Self::error_at(cs, toks, q, 2, Expected::Arrow));
        }
        if !Self::ident_is(cs, toks, q, 3) {
            return Err(Self::error_at(cs, toks, q, 3, Expected::Ident));
        }
        if !Self::kind_is(toks, q, 4, TokenKind::Semicolon) {
            return Err(Self::error_at(cs, toks, q, 4, Expected::Semicolon));
        }
        let event = Self::word_text(cs, toks, q + 1);
        let target = Self::word_text(cs, toks, q + 3);
        Ok((Transition { transition_type: tt, event, target }, q + 5))
    }

    /// The body of a state from token `p0` through its closing brace: its
    /// transitions in order, its last data block, and whether `terminal;` occurs.
    pub fn parse_state_items(cs: &Vec<char>, toks: &Vec<Token>, p0: usize, terr0: Option<String>) -> (r:
        Result<(Vec<Transition>, Option<DataBlock>, bool, Option<String>, usize), RawError>)
        requires
            p0 <= toks.len(),
            tokens_wf(cs@, toks@),
        ensures
            offset_within(r, cs@.len()),
            body_result_view(r) == spec_state_items(
                cs@,
                toks@,
                p0 as int,
                empty_body(),
                opt_text(terr0),
            ),
    {
        let mut p = p0;
        let mut transitions: Vec<Transition> = Vec::new();
        let mut data: Option<DataBlock> = None;
        let mut is_terminal = false;
        let mut terr = terr0;
        assert(transitions_view(transitions@) =~= Seq::<SpecTransition>::empty());
        assert(body_view(transitions@, data, is_terminal) =~= empty_body());
        loop
            invariant
                p <= toks.len(),
                tokens_wf(cs@, toks@),
                spec_state_items(cs@, toks@, p0 as int, empty_body(), opt_text(terr0))
                    == spec_state_items(
                    cs@,
                    toks@,
                    p as int,
                    body_view(transitions@, data, is_terminal),
                    opt_text(terr),
                ),
            decreases toks@.len() - p,
        {
            let ghost body = body_view(transitions@, data, is_terminal);
            if Self::kind_is(toks, p, 0, TokenKind::RightBrace) {
                return Ok((transitions, data, is_terminal, terr, p + 1));
            }
            if Self::word_is(cs, toks, p, 0, &vec!['d', 'a', 't', 'a']) {
                proof {
                    lemma_block_advances(cs@, toks@, p + 1, opt_text(terr));
                }
                match Self::parse_block(cs, toks, p + 1, terr) {
                    Ok((b, t, q)) => {
                        data = Some(b);
                        terr = t;
                        p = q;
                        assert(body_view(transitions@, data, is_terminal) =~= SpecBody {
                            data: Some(b@),
                            ..body
                        });
                    },
                    Err(e) => {
                        return Err(e);
                    },
                }
            } else if Self::word_is(cs, toks, p, 0, &vec!['t', 'e', 'r', 'm', 'i', 'n', 'a', 'l']) {
                if !Self::kind_is(toks, p, 1, TokenKind::Semicolon) {
                    return Err(Self::error_at(cs, toks, p, 1, Expected::Semicolon));
                }
                is_terminal = true;
                p = p + 2;
                assert(body_view(transitions@, data, is_terminal) =~= SpecBody {
                    is_terminal: true,
                    ..body
                });
            } else if Self::word_is(cs, toks, p, 0, &vec!['o', 'n']) || Self::transition_kind_at(
                cs,
                toks,
                p,
            ).is_some() {
                match Self::parse_transition(cs, toks, p) {
                    Ok((t, q)) => {
                        let ghost before = transitions@;
                        transitions.push(t);
                        p = q;
                        assert(transitions_view(transitions@) =~= transitions_view(before).push(
                            t@,
                        ));
                        assert(body_view(transitions@, data, is_terminal) =~= SpecBody {
                            transitions: body.transitions.push(t@),
                            ..body
                        });
                    },
                    Err(e) => {
                        return Err(e);
                    },
                }
            } else {
                return Err(Self::error_at(cs, toks, p, 0, Expected::StateItem));
            }
        }
    }

    /// The program spelled by the tokens `toks` of `cs`.
    pub fn parse_items(cs: &Vec<char>, toks: &Vec<Token>) -> (r: Result<TytoProgram, RawError>)
        requires
            tokens_wf(cs@, toks@),
        ensures
            offset_within(r, cs@.len()),
            program_result_view(r) == spec_items(cs@, toks@, 0, None, Seq::empty(), None),
    {
        let mut p: usize = 0;
        let mut context: Option<DataBlock> = None;
        let mut states: Vec<State> = Vec::new();
        let mut terr: Option<String> = None;
        assert(states_view(states@) =~= Seq::<SpecState>::empty());
        loop
            invariant
                p <= toks.len(),
                tokens_wf(cs@, toks@),
                spec_items(cs@, toks@, 0, None, Seq::empty(), None) == spec_items(
                    cs@,
                    toks@,
                    p as int,
                    block_view(context),
                    states_view(states@),
                    opt_text(terr),
                ),
            decreases toks@.len() - p,
        {
            if p >= toks.len() {
                return match terr {
                    Some(m) => Err(RawError::Type(m)),
                    None => Ok(TytoProgram { context, states }),
                };
            }
            if Self::word_is(cs, toks, p, 0, &vec!['c', 'o', 'n', 't', 'e', 'x', 't']) {
                proof {
                    lemma_block_advances(cs@, toks@, p + 1, opt_text(terr));
                }
                match Self::parse_block(cs, toks, p + 1, terr) {
                    Ok((b, t, q)) => {
                        context = Some(b);
                        terr = t;
                        p = q;
                    },
                    Err(e) => {
                        return Err(e);
                    },
                }
            } else if Self::word_is(cs, toks, p, 0, &vec!['s', 't', 'a', 't', 'e']) {
                if !Self::ident_is(cs, toks, p, 1) {
                    return Err(Self::error_at(cs, toks, p, 1, Expected::Ident));
                }
                if !Self::kind_is(toks, p, 2, TokenKind::LeftBrace) {
                    return Err(Self::error_at(cs, toks, p, 2, Expected::LeftBrace));
                }
                let name = Self::word_text(cs, toks, p + 1);
                proof {
                    lemma_state_items_advance(cs@, toks@, p + 3, empty_body(), opt_text(terr));
                }
                match Self::parse_state_items(cs, toks, p + 3, terr) {
                    Ok((transitions, data, is_terminal, t, q)) => {
                        let st = State { name, transitions, data, is_terminal };
                        let ghost before = states@;
                        states.push(st);
                        terr = t;
                        p = q;
                        assert(states_view(states@) =~= states_view(before).push(st@));
                    },
                    Err(e) => {
                        return Err(e);
                    },
                }
            } else {
                return Err(Self::error_at(cs, toks, p, 0, Expected::Item));
            }
        }
    }

    /// Line and column (from 1) of character offset `n`.
    fn line_col_of(cs: &Vec<char>, n: usize) -> (r: (usize, usize))
        requires
            n <= cs@.len() < usize::MAX,
        ensures
            (r.0 as nat, r.1 as nat) == line_col(cs@, n as int),
    {
        let mut line: usize = 1;
        let mut col: usize = 1;
        let mut i: usize = 0;
        while i < n
            invariant
                i <= n <= cs@.len() < usize::MAX,
                (line as nat, col as nat) == line_col(cs@, i as int),
                1 <= line,
                1 <= col,
                line + col <= i + 2,
            decreases n - i,
        {
            if cs[i] == '\n' {
                line = line + 1;
                col = 1;
            } else {
                col = col + 1;
            }
            i = i + 1;
        }
        (line, col)
    }
}

/// Reads a Tyto program.
pub fn parse_dsl(input: &str) -> (r: Result<TytoProgram, ParseError>)
    requires
        input@.len() < usize::MAX,
    ensures
        match spec_parse_dsl(input@) {
            Ok(p) => r matches Ok(q) && q@ == p,
            Err(SpecParseError::Syntax { offset, expected }) => r matches Err(
                ParseError::Syntax { line, column, expected: e },
            ) && (line as nat, column as nat) == line_col(input@, offset as int) && e == expected,
            Err(SpecParseError::Type(m)) => r matches Err(ParseError::Type(m2)) && m2@ == m,
        },
{
    let cs = chars_of(input);
    let raw = match lex(&cs) {
        Ok(toks) => TytoParser::parse_items(&cs, &toks),
        Err(e) => Err(e),
    };
    match raw {
        Ok(p) => Ok(p),
        Err(RawError::Type(m)) => Err(ParseError::Type(m)),
        Err(RawError::Syntax { offset, expected }) => {
            let (line, column) = TytoParser::line_col_of(&cs, offset);
            Err(ParseError::Syntax { line, column, expected })
        },
    }
}

} // verus!
