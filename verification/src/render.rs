//! The canonical text of a program and the law that the parser reads it
//! back as the same program.
//!
//! A program is written as a list of lexemes (words and punctuation), each
//! followed by one space.

use vstd::prelude::*;
use crate::ast::{
    TytoType, BaseType, TransitionType, SpecField, SpecDataBlock, SpecTransition, SpecState,
    SpecProgram, spec_parse_type, name_string, name_int, name_float, name_bool,
};
use crate::lexer::{
    Token, TokenKind, spec_lex, mk_token, is_word_char, is_blank, word_end, is_ascii_letter,
};
use crate::parser::{
    SpecParseError, SpecBody, spec_fields, spec_block, spec_transition, spec_state_items, spec_items,
    spec_parse_dsl, empty_body, is_ident, kind_at, word_at, ident_at, keyword_at, transition_kind,
    kw_state, kw_context, kw_data, kw_terminal, kw_on, kw_success, kw_recoverable, kw_fatal,
};

verus! {

/// The name of a type: its base name followed by its `[]` and `?` suffixes.
pub open spec fn type_text(t: TytoType) -> Seq<char>
    decreases t,
{
    match t {
        TytoType::Base(BaseType::String) => name_string(),
        TytoType::Base(BaseType::Int) => name_int(),
        TytoType::Base(BaseType::Float) => name_float(),
        TytoType::Base(BaseType::Bool) => name_bool(),
        TytoType::Array(inner) => type_text(*inner) + seq!['[', ']'],
        TytoType::Optional(inner) => type_text(*inner).push('?'),
    }
}

/// Reading the name of a type gives the type back.
pub proof fn lemma_type_text_parses(t: TytoType)
    ensures
        spec_parse_type(type_text(t)) == Ok::<TytoType, Seq<char>>(t),
    decreases t,
{
    match t {
        TytoType::Base(_) => {},
        TytoType::Array(inner) => {
            lemma_type_text_parses(*inner);
            let s = type_text(t);
            assert(s.subrange(0, s.len() - 2) =~= type_text(*inner));
        },
        TytoType::Optional(inner) => {
            lemma_type_text_parses(*inner);
            let s = type_text(t);
            assert(s.drop_last() =~= type_text(*inner));
        },
    }
}

/// A text that reads as a type is that type's name: nothing else reads as it.
pub proof fn lemma_parsed_type_text(s: Seq<char>)
    ensures
        spec_parse_type(s) matches Ok(t) ==> type_text(t) == s,
    decreases s.len(),
{
    if s.len() > 0 && s.last() == '?' {
        lemma_parsed_type_text(s.drop_last());
        if let Ok(t) = spec_parse_type(s) {
            assert(type_text(t) =~= s.drop_last().push('?'));
        }
    } else if s.len() >= 2 && s[s.len() - 2] == '[' && s[s.len() - 1] == ']' {
        let inner = s.subrange(0, s.len() - 2);
        lemma_parsed_type_text(inner);
        if let Ok(t) = spec_parse_type(s) {
            assert(type_text(t) =~= inner + seq!['[', ']']);
            assert(inner + seq!['[', ']'] =~= s);
        }
    }
}

/// The lexemes followed by one space each.
pub open spec fn spaced(ls: Seq<Seq<char>>) -> Seq<char>
    decreases ls.len(),
{
    if ls.len() == 0 {
        Seq::empty()
    } else {
        spaced(ls.drop_last()) + ls.last() + seq![' ']
    }
}

/// Where lexeme `k` begins in `spaced(ls)`.
pub open spec fn lexeme_offset(ls: Seq<Seq<char>>, k: int) -> int {
    spaced(ls.take(k)).len() as int
}

pub open spec fn is_word(l: Seq<char>) -> bool {
    l.len() > 0 && forall|k: int| 0 <= k < l.len() ==> is_word_char(#[trigger] l[k])
}

/// The token a lexeme makes.
pub open spec fn lexeme_kind(l: Seq<char>) -> Option<TokenKind> {
    if l == seq!['{'] {
        Some(TokenKind::LeftBrace)
    } else if l == seq!['}'] {
        Some(TokenKind::RightBrace)
    } else if l == seq![';'] {
        Some(TokenKind::Semicolon)
    } else if l == seq![':'] {
        Some(TokenKind::Colon)
    } else if l == seq![','] {
        Some(TokenKind::Comma)
    } else if l == seq!['-', '>'] {
        Some(TokenKind::Arrow)
    } else if is_word(l) {
        Some(TokenKind::Word)
    } else {
        None
    }
}

/// The tokens of `spaced(ls)`.
pub open spec fn tokens_for(ls: Seq<Seq<char>>) -> Seq<Token> {
    Seq::new(
        ls.len(),
        |k: int|
            mk_token(
                lexeme_kind(ls[k]).unwrap(),
                lexeme_offset(ls, k),
                lexeme_offset(ls, k) + ls[k].len(),
            ),
    )
}

proof fn lemma_spaced_prefix(ls: Seq<Seq<char>>, k: int)
    requires
        0 <= k <= ls.len(),
    ensures
        spaced(ls.take(k)).len() <= spaced(ls).len(),
        spaced(ls).subrange(0, spaced(ls.take(k)).len() as int) == spaced(ls.take(k)),
    decreases ls.len(),
{
    if k == ls.len() {
        assert(ls.take(k) =~= ls);
        assert(spaced(ls).subrange(0, spaced(ls).len() as int) =~= spaced(ls));
    } else {
        let d = ls.drop_last();
        lemma_spaced_prefix(d, k);
        assert(d.take(k) =~= ls.take(k));
        let a = spaced(d);
        let n = spaced(ls.take(k)).len() as int;
        assert(spaced(ls) == a + ls.last() + seq![' ']);
        assert(spaced(ls).subrange(0, n) =~= a.subrange(0, n));
    }
}

pub(crate) proof fn lemma_spaced_lexeme(ls: Seq<Seq<char>>, k: int)
    requires
        0 <= k < ls.len(),
    ensures
        lexeme_offset(ls, k + 1) == lexeme_offset(ls, k) + ls[k].len() + 1,
        lexeme_offset(ls, k + 1) <= spaced(ls).len(),
        spaced(ls).subrange(lexeme_offset(ls, k), lexeme_offset(ls, k) + ls[k].len()) == ls[k],
        spaced(ls)[lexeme_offset(ls, k) + ls[k].len()] == ' ',
{
    let t1 = ls.take(k + 1);
    assert(t1.drop_last() =~= ls.take(k));
    assert(t1.last() == ls[k]);
    lemma_spaced_prefix(ls, k + 1);
    let s = spaced(ls);
    let p = spaced(t1);
    let o = lexeme_offset(ls, k);
    assert(p == spaced(ls.take(k)) + ls[k] + seq![' ']);
    assert(s.subrange(0, p.len() as int) == p);
    assert(s.subrange(o, o + ls[k].len()) =~= p.subrange(o, o + ls[k].len()));
    assert(p.subrange(o, o + ls[k].len()) =~= ls[k]);
    assert(s[o + ls[k].len()] == p[o + ls[k].len()]);
}

proof fn lemma_word_end_of_word(s: Seq<char>, i: int, n: int)
    requires
        0 <= i <= n < s.len(),
        forall|k: int| i <= k < n ==> is_word_char(#[trigger] s[k]),
        !is_word_char(s[n]),
    ensures
        word_end(s, i) == n,
    decreases n - i,
{
    if i < n {
        lemma_word_end_of_word(s, i + 1, n);
    }
}

/// Every lexeme makes a token.
pub open spec fn lexemes_ok(ls: Seq<Seq<char>>) -> bool {
    forall|k: int| 0 <= k < ls.len() ==> (#[trigger] lexeme_kind(ls[k])) is Some
}

proof fn lemma_lex_from(ls: Seq<Seq<char>>, k: int)
    requires
        lexemes_ok(ls),
        0 <= k <= ls.len(),
        spaced(ls).len() <= usize::MAX,
    ensures
        spec_lex(spaced(ls), lexeme_offset(ls, k), tokens_for(ls).take(k)) == Ok::<
            Seq<Token>,
            crate::parser::SpecParseError,
        >(tokens_for(ls)),
    decreases ls.len() - k,
{
    let s = spaced(ls);
    let toks = tokens_for(ls);
    if k == ls.len() {
        assert(ls.take(k) =~= ls);
        assert(toks.take(k) =~= toks);
    } else {
        lemma_spaced_lexeme(ls, k);
        lemma_lex_from(ls, k + 1);
        let o = lexeme_offset(ls, k);
        let l = ls[k];
        let e = o + l.len();
        assert(lexeme_kind(l) is Some);
        assert(toks.take(k + 1) =~= toks.take(k).push(toks[k]));
        assert(s[e] == ' ');
        assert(is_blank(s[e]));
        assert forall|m: int| 0 <= m < l.len() implies s[o + m] == l[m] by {
            assert(s.subrange(o, e)[m] == s[o + m]);
        }
        if l == seq!['-', '>'] {
            assert(s[o] == '-' && s[o + 1] == '>');
            assert(spec_lex(s, e, toks.take(k + 1)) == spec_lex(s, e + 1, toks.take(k + 1)));
        } else if l.len() == 1 && !is_word(l) {
            assert(s[o] == l[0]);
            assert(spec_lex(s, e, toks.take(k + 1)) == spec_lex(s, e + 1, toks.take(k + 1)));
        } else {
            assert(is_word(l));
            assert(is_word_char(l[0]));
            assert(s[o] == l[0]);
            assert forall|m: int| o <= m < e implies is_word_char(#[trigger] s[m]) by {
                assert(s[o + (m - o)] == l[m - o]);
            }
            lemma_word_end_of_word(s, o, e);
            assert(spec_lex(s, e, toks.take(k + 1)) == spec_lex(s, e + 1, toks.take(k + 1)));
        }
    }
}

/// The lexer splits `spaced(ls)` back into the tokens of the lexemes `ls`.
pub proof fn lemma_lex_spaced(ls: Seq<Seq<char>>)
    requires
        lexemes_ok(ls),
        spaced(ls).len() <= usize::MAX,
    ensures
        spec_lex(spaced(ls), 0, Seq::empty()) == Ok::<Seq<Token>, crate::parser::SpecParseError>(
            tokens_for(ls),
        ),
{
    lemma_lex_from(ls, 0);
    assert(ls.take(0) =~= Seq::<Seq<char>>::empty());
    assert(tokens_for(ls).take(0) =~= Seq::<Token>::empty());
}

// ---------------------------------------------------------------------------
// The canonical lexemes of a program
// ---------------------------------------------------------------------------

pub open spec fn lx_left() -> Seq<char> { seq!['{'] }
pub open spec fn lx_right() -> Seq<char> { seq!['}'] }
pub open spec fn lx_semi() -> Seq<char> { seq![';'] }
pub open spec fn lx_colon() -> Seq<char> { seq![':'] }
pub open spec fn lx_comma() -> Seq<char> { seq![','] }
pub open spec fn lx_arrow() -> Seq<char> { seq!['-', '>'] }

/// `name: Type,` for each field.
pub open spec fn field_lexemes(fs: Seq<SpecField>) -> Seq<Seq<char>>
    decreases fs.len(),
{
    if fs.len() == 0 {
        Seq::empty()
    } else {
        seq![fs[0].name, lx_colon(), type_text(fs[0].field_type), lx_comma()] + field_lexemes(
            fs.drop_first(),
        )
    }
}

/// `{ fields }`.
pub open spec fn block_lexemes(b: SpecDataBlock) -> Seq<Seq<char>> {
    seq![lx_left()] + field_lexemes(b.fields) + seq![lx_right()]
}

pub open spec fn kind_lexemes(k: TransitionType) -> Seq<Seq<char>> {
    match k {
        TransitionType::Success => seq![kw_success()],
        TransitionType::Recoverable => seq![kw_recoverable()],
        TransitionType::Fatal => seq![kw_fatal()],
        TransitionType::Default => Seq::empty(),
    }
}

/// `[kind] on Event -> Target;`.
pub open spec fn transition_lexemes(t: SpecTransition) -> Seq<Seq<char>> {
    kind_lexemes(t.transition_type) + seq![kw_on(), t.event, lx_arrow(), t.target, lx_semi()]
}

pub open spec fn transitions_lexemes(ts: Seq<SpecTransition>) -> Seq<Seq<char>>
    decreases ts.len(),
{
    if ts.len() == 0 {
        Seq::empty()
    } else {
        transition_lexemes(ts[0]) + transitions_lexemes(ts.drop_first())
    }
}

pub open spec fn data_lexemes(d: Option<SpecDataBlock>) -> Seq<Seq<char>> {
    match d {
        Some(b) => seq![kw_data()] + block_lexemes(b),
        None => Seq::empty(),
    }
}

pub open spec fn terminal_lexemes(t: bool) -> Seq<Seq<char>> {
    if t {
        seq![kw_terminal(), lx_semi()]
    } else {
        Seq::empty()
    }
}

/// `state Name { transitions [data { ... }] [terminal;] }`.
pub open spec fn state_lexemes(st: SpecState) -> Seq<Seq<char>> {
    seq![kw_state(), st.name, lx_left()] + transitions_lexemes(st.transitions) + data_lexemes(
        st.data,
    ) + terminal_lexemes(st.is_terminal) + seq![lx_right()]
}

pub open spec fn states_lexemes(ss: Seq<SpecState>) -> Seq<Seq<char>>
    decreases ss.len(),
{
    if ss.len() == 0 {
        Seq::empty()
    } else {
        state_lexemes(ss[0]) + states_lexemes(ss.drop_first())
    }
}

pub open spec fn context_lexemes(c: Option<SpecDataBlock>) -> Seq<Seq<char>> {
    match c {
        Some(b) => seq![kw_context()] + block_lexemes(b),
        None => Seq::empty(),
    }
}

/// The lexemes of a program: its context block, then its states.
pub open spec fn program_lexemes(p: SpecProgram) -> Seq<Seq<char>> {
    context_lexemes(p.context) + states_lexemes(p.states)
}

/// The canonical text of a program.
pub open spec fn render(p: SpecProgram) -> Seq<char> {
    spaced(program_lexemes(p))
}

pub open spec fn fields_named(fs: Seq<SpecField>) -> bool {
    forall|k: int| 0 <= k < fs.len() ==> is_ident(#[trigger] fs[k].name)
}

pub open spec fn block_named(b: Option<SpecDataBlock>) -> bool {
    b matches Some(blk) ==> fields_named(blk.fields)
}

pub open spec fn transitions_named(ts: Seq<SpecTransition>) -> bool {
    forall|k: int| 0 <= k < ts.len() ==> is_ident(#[trigger] ts[k].event) && is_ident(ts[k].target)
}

pub open spec fn state_named(st: SpecState) -> bool {
    is_ident(st.name) && transitions_named(st.transitions) && block_named(st.data)
}

/// Every name of the program (states, events, targets, fields) is an identifier.
pub open spec fn program_named(p: SpecProgram) -> bool {
    &&& block_named(p.context)
    &&& forall|k: int| 0 <= k < p.states.len() ==> state_named(#[trigger] p.states[k])
}

// ---------------------------------------------------------------------------
// Every lexeme makes a token
// ---------------------------------------------------------------------------

pub(crate) proof fn lemma_ident_kind(n: Seq<char>)
    requires
        is_ident(n),
    ensures
        lexeme_kind(n) == Some(TokenKind::Word),
{
    assert(is_word(n)) by {
        assert forall|k: int| 0 <= k < n.len() implies is_word_char(#[trigger] n[k]) by {
            assert(crate::parser::is_ident_char(n[k]));
        }
    }
    assert(crate::parser::is_ident_start(n[0]));
    assert(n != lx_left() && n != lx_right() && n != lx_semi() && n != lx_colon() && n != lx_comma()
        && n != lx_arrow()) by {
        if n.len() == 1 || n.len() == 2 {
            assert(n[0] != '{' && n[0] != '}' && n[0] != ';' && n[0] != ':' && n[0] != ',' && n[0]
                != '-');
        }
    }
}

proof fn lemma_letters_word(n: Seq<char>)
    requires
        n.len() > 0,
        forall|k: int| 0 <= k < n.len() ==> is_ascii_letter(#[trigger] n[k]),
    ensures
        lexeme_kind(n) == Some(TokenKind::Word),
        is_ident(n),
{
    assert forall|k: int| 0 <= k < n.len() implies crate::parser::is_ident_char(#[trigger] n[k]) by {
        assert(is_ascii_letter(n[k]));
    }
    lemma_ident_kind(n);
}

pub(crate) proof fn lemma_keywords()
    ensures
        lexeme_kind(kw_state()) == Some(TokenKind::Word),
        lexeme_kind(kw_context()) == Some(TokenKind::Word),
        lexeme_kind(kw_data()) == Some(TokenKind::Word),
        lexeme_kind(kw_terminal()) == Some(TokenKind::Word),
        lexeme_kind(kw_on()) == Some(TokenKind::Word),
        lexeme_kind(kw_success()) == Some(TokenKind::Word),
        lexeme_kind(kw_recoverable()) == Some(TokenKind::Word),
        lexeme_kind(kw_fatal()) == Some(TokenKind::Word),
        lexeme_kind(lx_left()) == Some(TokenKind::LeftBrace),
        lexeme_kind(lx_right()) == Some(TokenKind::RightBrace),
        lexeme_kind(lx_semi()) == Some(TokenKind::Semicolon),
        lexeme_kind(lx_colon()) == Some(TokenKind::Colon),
        lexeme_kind(lx_comma()) == Some(TokenKind::Comma),
        lexeme_kind(lx_arrow()) == Some(TokenKind::Arrow),
{
    let ws = seq![kw_state(), kw_context(), kw_data(), kw_terminal(), kw_on(), kw_success(),
        kw_recoverable(), kw_fatal()];
    assert forall|w: int| 0 <= w < ws.len() implies lexeme_kind(#[trigger] ws[w]) == Some(
        TokenKind::Word,
    ) by {
        let n = ws[w];
        assert forall|k: int| 0 <= k < n.len() implies is_ascii_letter(#[trigger] n[k]) by {
            assert(n[k] == 's' || n[k] == 't' || n[k] == 'a' || n[k] == 'e' || n[k] == 'c' || n[k]
                == 'o' || n[k] == 'n' || n[k] == 'x' || n[k] == 'd' || n[k] == 'r' || n[k] == 'm'
                || n[k] == 'i' || n[k] == 'l' || n[k] == 'u' || n[k] == 'v' || n[k] == 'b' || n[k]
                == 'f');
        }
        lemma_letters_word(n);
    }
    assert(lx_left()[0] == '{' && lx_right()[0] == '}' && lx_semi()[0] == ';' && lx_colon()[0]
        == ':' && lx_comma()[0] == ',');
    assert(ws[0] == kw_state());
    assert(ws[1] == kw_context());
    assert(ws[2] == kw_data());
    assert(ws[3] == kw_terminal());
    assert(ws[4] == kw_on());
    assert(ws[5] == kw_success());
    assert(ws[6] == kw_recoverable());
    assert(ws[7] == kw_fatal());
}

proof fn lemma_type_text_word(t: TytoType)
    ensures
        is_word(type_text(t)),
        is_ascii_letter(type_text(t)[0]),
    decreases t,
{
    match t {
        TytoType::Base(b) => {
            let n = type_text(t);
            assert forall|k: int| 0 <= k < n.len() implies is_word_char(#[trigger] n[k]) by {
                assert(is_ascii_letter(n[k]));
            }
        },
        TytoType::Array(inner) => {
            lemma_type_text_word(*inner);
            let a = type_text(*inner);
            let n = type_text(t);
            assert forall|k: int| 0 <= k < n.len() implies is_word_char(#[trigger] n[k]) by {
                if k < a.len() {
                    assert(n[k] == a[k]);
                }
            }
            assert(n[0] == a[0]);
        },
        TytoType::Optional(inner) => {
            lemma_type_text_word(*inner);
            let a = type_text(*inner);
            let n = type_text(t);
            assert forall|k: int| 0 <= k < n.len() implies is_word_char(#[trigger] n[k]) by {
                if k < a.len() {
                    assert(n[k] == a[k]);
                }
            }
            assert(n[0] == a[0]);
        },
    }
}

pub(crate) proof fn lemma_type_text_kind(t: TytoType)
    ensures
        lexeme_kind(type_text(t)) == Some(TokenKind::Word),
{
    lemma_type_text_word(t);
    let n = type_text(t);
    lemma_keywords();
    assert(n != lx_left() && n != lx_right() && n != lx_semi() && n != lx_colon() && n != lx_comma()
        && n != lx_arrow()) by {
        if n.len() == 1 || n.len() == 2 {
            assert(is_ascii_letter(n[0]));
        }
    }
}

proof fn lemma_ok_concat(a: Seq<Seq<char>>, b: Seq<Seq<char>>)
    requires
        lexemes_ok(a),
        lexemes_ok(b),
    ensures
        lexemes_ok(a + b),
{
    assert forall|k: int| 0 <= k < (a + b).len() implies (#[trigger] lexeme_kind((a + b)[k])) is Some by {
        if k < a.len() {
            assert((a + b)[k] == a[k]);
        } else {
            assert((a + b)[k] == b[k - a.len()]);
        }
    }
}

proof fn lemma_fields_ok(fs: Seq<SpecField>)
    requires
        fields_named(fs),
    ensures
        lexemes_ok(field_lexemes(fs)),
    decreases fs.len(),
{
    if fs.len() > 0 {
        let rest = fs.drop_first();
        assert forall|k: int| 0 <= k < rest.len() implies is_ident(#[trigger] rest[k].name) by {
            assert(rest[k] == fs[k + 1]);
        }
        lemma_fields_ok(rest);
        assert(is_ident(fs[0].name));
        lemma_ident_kind(fs[0].name);
        lemma_type_text_kind(fs[0].field_type);
        lemma_keywords();
        let head = seq![fs[0].name, lx_colon(), type_text(fs[0].field_type), lx_comma()];
        assert(lexemes_ok(head)) by {
            assert forall|k: int| 0 <= k < head.len() implies (#[trigger] lexeme_kind(head[k])) is Some by {
                if k == 0 {} else if k == 1 {} else if k == 2 {} else {}
            }
        }
        lemma_ok_concat(head, field_lexemes(rest));
    }
}

proof fn lemma_block_ok(b: SpecDataBlock)
    requires
        fields_named(b.fields),
    ensures
        lexemes_ok(block_lexemes(b)),
{
    lemma_keywords();
    lemma_fields_ok(b.fields);
    let l = seq![lx_left()];
    let r = seq![lx_right()];
    assert(lexemes_ok(l)) by {
        assert forall|k: int| 0 <= k < l.len() implies (#[trigger] lexeme_kind(l[k])) is Some by {}
    }
    assert(lexemes_ok(r)) by {
        assert forall|k: int| 0 <= k < r.len() implies (#[trigger] lexeme_kind(r[k])) is Some by {}
    }
    lemma_ok_concat(l, field_lexemes(b.fields));
    lemma_ok_concat(l + field_lexemes(b.fields), r);
}

proof fn lemma_transitions_ok(ts: Seq<SpecTransition>)
    requires
        transitions_named(ts),
    ensures
        lexemes_ok(transitions_lexemes(ts)),
    decreases ts.len(),
{
    if ts.len() > 0 {
        let rest = ts.drop_first();
        assert forall|k: int| 0 <= k < rest.len() implies is_ident(#[trigger] rest[k].event)
            && is_ident(rest[k].target) by {
            assert(rest[k] == ts[k + 1]);
        }
        lemma_transitions_ok(rest);
        let t = ts[0];
        assert(is_ident(t.event) && is_ident(t.target));
        lemma_ident_kind(t.event);
        lemma_ident_kind(t.target);
        lemma_keywords();
        let kl = kind_lexemes(t.transition_type);
        let tail = seq![kw_on(), t.event, lx_arrow(), t.target, lx_semi()];
        assert(lexemes_ok(kl)) by {
            assert forall|k: int| 0 <= k < kl.len() implies (#[trigger] lexeme_kind(kl[k])) is Some by {}
        }
        assert(lexemes_ok(tail)) by {
            assert forall|k: int| 0 <= k < tail.len() implies (#[trigger] lexeme_kind(tail[k])) is Some by {
                if k == 0 {} else if k == 1 {} else if k == 2 {} else if k == 3 {} else {}
            }
        }
        lemma_ok_concat(kl, tail);
        lemma_ok_concat(transition_lexemes(t), transitions_lexemes(rest));
    }
}

proof fn lemma_state_ok(st: SpecState)
    requires
        state_named(st),
    ensures
        lexemes_ok(state_lexemes(st)),
{
    lemma_keywords();
    lemma_ident_kind(st.name);
    lemma_transitions_ok(st.transitions);
    let head = seq![kw_state(), st.name, lx_left()];
    assert(lexemes_ok(head)) by {
        assert forall|k: int| 0 <= k < head.len() implies (#[trigger] lexeme_kind(head[k])) is Some by {
            if k == 0 {} else if k == 1 {} else {}
        }
    }
    let dl = data_lexemes(st.data);
    assert(lexemes_ok(dl)) by {
        if let Some(b) = st.data {
            lemma_block_ok(b);
            let d = seq![kw_data()];
            assert(lexemes_ok(d)) by {
                assert forall|k: int| 0 <= k < d.len() implies (#[trigger] lexeme_kind(d[k])) is Some by {}
            }
            lemma_ok_concat(d, block_lexemes(b));
        } else {
            assert forall|k: int| 0 <= k < dl.len() implies (#[trigger] lexeme_kind(dl[k])) is Some by {}
        }
    }
    let tl = terminal_lexemes(st.is_terminal);
    assert(lexemes_ok(tl)) by {
        assert forall|k: int| 0 <= k < tl.len() implies (#[trigger] lexeme_kind(tl[k])) is Some by {
            if k == 0 {} else {}
        }
    }
    let r = seq![lx_right()];
    assert(lexemes_ok(r)) by {
        assert forall|k: int| 0 <= k < r.len() implies (#[trigger] lexeme_kind(r[k])) is Some by {}
    }
    lemma_ok_concat(head, transitions_lexemes(st.transitions));
    lemma_ok_concat(head + transitions_lexemes(st.transitions), dl);
    lemma_ok_concat(head + transitions_lexemes(st.transitions) + dl, tl);
    lemma_ok_concat(head + transitions_lexemes(st.transitions) + dl + tl, r);
}

proof fn lemma_states_ok(ss: Seq<SpecState>)
    requires
        forall|k: int| 0 <= k < ss.len() ==> state_named(#[trigger] ss[k]),
    ensures
        lexemes_ok(states_lexemes(ss)),
    decreases ss.len(),
{
    if ss.len() > 0 {
        let rest = ss.drop_first();
        assert forall|k: int| 0 <= k < rest.len() implies state_named(#[trigger] rest[k]) by {
            assert(rest[k] == ss[k + 1]);
        }
        lemma_states_ok(rest);
        assert(state_named(ss[0]));
        lemma_state_ok(ss[0]);
        lemma_ok_concat(state_lexemes(ss[0]), states_lexemes(rest));
    } else {
        let e = states_lexemes(ss);
        assert forall|k: int| 0 <= k < e.len() implies (#[trigger] lexeme_kind(e[k])) is Some by {}
    }
}

pub(crate) proof fn lemma_program_ok(p: SpecProgram)
    requires
        program_named(p),
    ensures
        lexemes_ok(program_lexemes(p)),
{
    lemma_keywords();
    let cl = context_lexemes(p.context);
    assert(lexemes_ok(cl)) by {
        if let Some(b) = p.context {
            lemma_block_ok(b);
            let c = seq![kw_context()];
            assert(lexemes_ok(c)) by {
                assert forall|k: int| 0 <= k < c.len() implies (#[trigger] lexeme_kind(c[k])) is Some by {}
            }
            lemma_ok_concat(c, block_lexemes(b));
        } else {
            assert forall|k: int| 0 <= k < cl.len() implies (#[trigger] lexeme_kind(cl[k])) is Some by {}
        }
    }
    lemma_states_ok(p.states);
    lemma_ok_concat(cl, states_lexemes(p.states));
}

} // verus!
