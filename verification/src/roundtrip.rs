//! The parser reads the canonical text of a program back as the same program.

use vstd::prelude::*;
use crate::ast::{SpecField, SpecDataBlock, SpecTransition, SpecState, SpecProgram, TransitionType};
use crate::lexer::{Token, TokenKind};
use crate::parser::{
    SpecBody, spec_fields, spec_block, spec_transition, spec_state_items, spec_items,
    spec_parse_dsl, empty_body, is_ident, kind_at, word_at, ident_at, keyword_at,
    transition_kind, kw_state, kw_context, kw_data, kw_terminal, kw_on, kw_success,
    kw_recoverable, kw_fatal,
};
use crate::render::{
    spaced, lexeme_kind, lexeme_offset, lexemes_ok, tokens_for, lx_left, lx_right, lx_semi,
    lx_colon, lx_comma, lx_arrow, field_lexemes, block_lexemes, kind_lexemes,
    transition_lexemes, transitions_lexemes, data_lexemes, terminal_lexemes, state_lexemes,
    states_lexemes, context_lexemes, program_lexemes, render, fields_named, transitions_named,
    state_named, program_named, lemma_type_text_parses, lemma_type_text_kind, lemma_ident_kind,
    lemma_keywords, lemma_spaced_lexeme, lemma_lex_spaced, lemma_program_ok,
};

verus! {

/// The tokens `toks` of the text `cs` are, one for one, the lexemes `ls`.
spec fn toks_match(cs: Seq<char>, toks: Seq<Token>, ls: Seq<Seq<char>>) -> bool {
    &&& toks.len() == ls.len()
    &&& forall|k: int|
        0 <= k < toks.len() ==> lexeme_kind(ls[k]) == Some((#[trigger] toks[k]).kind)
            && cs.subrange(toks[k].start as int, toks[k].end as int) == ls[k]
}

/// The lexemes `xs` stand in `ls` from position `p` on.
spec fn lexemes_at(ls: Seq<Seq<char>>, p: int, xs: Seq<Seq<char>>) -> bool {
    &&& 0 <= p
    &&& p + xs.len() <= ls.len()
    &&& forall|j: int| 0 <= j < xs.len() ==> ls[p + j] == #[trigger] xs[j]
}

proof fn lemma_tokens_match(ls: Seq<Seq<char>>)
    requires
        lexemes_ok(ls),
        spaced(ls).len() <= usize::MAX,
    ensures
        toks_match(spaced(ls), tokens_for(ls), ls),
{
    let cs = spaced(ls);
    let toks = tokens_for(ls);
    assert forall|k: int| 0 <= k < toks.len() implies lexeme_kind(ls[k]) == Some(
        (#[trigger] toks[k]).kind,
    ) && cs.subrange(toks[k].start as int, toks[k].end as int) == ls[k] by {
        lemma_spaced_lexeme(ls, k);
        assert(lexeme_kind(ls[k]) is Some);
        let o = lexeme_offset(ls, k);
        assert(0 <= o);
        assert(toks[k].start as int == o);
        assert(toks[k].end as int == o + ls[k].len());
    }
}

proof fn lemma_at_split(ls: Seq<Seq<char>>, p: int, a: Seq<Seq<char>>, b: Seq<Seq<char>>)
    requires
        lexemes_at(ls, p, a + b),
    ensures
        lexemes_at(ls, p, a),
        lexemes_at(ls, p + a.len(), b),
{
    assert forall|j: int| 0 <= j < a.len() implies ls[p + j] == #[trigger] a[j] by {
        assert((a + b)[j] == a[j]);
    }
    assert forall|j: int| 0 <= j < b.len() implies ls[p + a.len() + j] == #[trigger] b[j] by {
        assert((a + b)[a.len() + j] == b[j]);
    }
}

/// A block's fields, from the first one through the closing brace.
proof fn lemma_fields_parse(
    cs: Seq<char>,
    toks: Seq<Token>,
    ls: Seq<Seq<char>>,
    p: int,
    fs: Seq<SpecField>,
    acc: Seq<SpecField>,
    terr: Option<Seq<char>>,
)
    requires
        toks_match(cs, toks, ls),
        fields_named(fs),
        lexemes_at(ls, p, field_lexemes(fs).push(lx_right())),
    ensures
        spec_fields(cs, toks, p, acc, terr) == Ok::<_, crate::parser::SpecParseError>(
            (acc + fs, terr, p + field_lexemes(fs).len() + 1),
        ),
    decreases fs.len(),
{
    lemma_keywords();
    let xs = field_lexemes(fs).push(lx_right());
    if fs.len() == 0 {
        assert(xs[0] == lx_right());
        assert(toks[p].kind == TokenKind::RightBrace);
        assert(acc + fs =~= acc);
    } else {
        let f = fs[0];
        let rest = fs.drop_first();
        let head = seq![f.name, lx_colon(), crate::render::type_text(f.field_type), lx_comma()];
        assert(xs =~= head + field_lexemes(rest).push(lx_right()));
        lemma_at_split(ls, p, head, field_lexemes(rest).push(lx_right()));
        assert(head[0] == f.name);
        assert(head[1] == lx_colon());
        assert(head[2] == crate::render::type_text(f.field_type));
        assert(head[3] == lx_comma());
        assert(is_ident(f.name));
        lemma_ident_kind(f.name);
        lemma_type_text_kind(f.field_type);
        lemma_type_text_parses(f.field_type);
        assert(toks[p].kind == TokenKind::Word);
        assert(toks[p + 1].kind == TokenKind::Colon);
        assert(toks[p + 2].kind == TokenKind::Word);
        assert(toks[p + 3].kind == TokenKind::Comma);
        assert(word_at(cs, toks, p) == Some(f.name));
        assert(ident_at(cs, toks, p) == Some(f.name));
        assert(word_at(cs, toks, p + 2) == Some(crate::render::type_text(f.field_type)));
        assert forall|k: int| 0 <= k < rest.len() implies is_ident(#[trigger] rest[k].name) by {
            assert(rest[k] == fs[k + 1]);
        }
        lemma_fields_parse(cs, toks, ls, p + 4, rest, acc.push(f), terr);
        assert(acc.push(f) + rest =~= acc + fs);
    }
}

proof fn lemma_block_parse(
    cs: Seq<char>,
    toks: Seq<Token>,
    ls: Seq<Seq<char>>,
    p: int,
    b: SpecDataBlock,
    terr: Option<Seq<char>>,
)
    requires
        toks_match(cs, toks, ls),
        fields_named(b.fields),
        lexemes_at(ls, p, block_lexemes(b)),
    ensures
        spec_block(cs, toks, p, terr) == Ok::<_, crate::parser::SpecParseError>(
            (b, terr, p + block_lexemes(b).len()),
        ),
{
    lemma_keywords();
    let xs = block_lexemes(b);
    let fl = field_lexemes(b.fields);
    assert(xs =~= seq![lx_left()] + fl.push(lx_right()));
    lemma_at_split(ls, p, seq![lx_left()], fl.push(lx_right()));
    assert(seq![lx_left()][0] == lx_left());
    assert(toks[p].kind == TokenKind::LeftBrace);
    lemma_fields_parse(cs, toks, ls, p + 1, b.fields, Seq::empty(), terr);
    assert(Seq::<SpecField>::empty() + b.fields =~= b.fields);
}

proof fn lemma_transition_parse(
    cs: Seq<char>,
    toks: Seq<Token>,
    ls: Seq<Seq<char>>,
    p: int,
    t: SpecTransition,
)
    requires
        toks_match(cs, toks, ls),
        is_ident(t.event),
        is_ident(t.target),
        lexemes_at(ls, p, transition_lexemes(t)),
    ensures
        spec_transition(cs, toks, p) == Ok::<_, crate::parser::SpecParseError>(
            (t, p + transition_lexemes(t).len()),
        ),
        keyword_at(cs, toks, p, kw_on()) || transition_kind(word_at(cs, toks, p)) is Some,
        word_at(cs, toks, p) != Some(kw_data()),
        word_at(cs, toks, p) != Some(kw_terminal()),
        !kind_at(toks, p, TokenKind::RightBrace),
{
    lemma_keywords();
    lemma_ident_kind(t.event);
    lemma_ident_kind(t.target);
    let kl = kind_lexemes(t.transition_type);
    let tail = seq![kw_on(), t.event, lx_arrow(), t.target, lx_semi()];
    lemma_at_split(ls, p, kl, tail);
    let q = p + kl.len();
    assert(tail[0] == kw_on());
    assert(tail[1] == t.event);
    assert(tail[2] == lx_arrow());
    assert(tail[3] == t.target);
    assert(tail[4] == lx_semi());
    assert(toks[q].kind == TokenKind::Word);
    assert(toks[q + 1].kind == TokenKind::Word);
    assert(toks[q + 2].kind == TokenKind::Arrow);
    assert(toks[q + 3].kind == TokenKind::Word);
    assert(toks[q + 4].kind == TokenKind::Semicolon);
    assert(word_at(cs, toks, q) == Some(kw_on()));
    assert(ident_at(cs, toks, q + 1) == Some(t.event));
    assert(ident_at(cs, toks, q + 3) == Some(t.target));
    assert(kw_on() != kw_success() && kw_on() != kw_recoverable() && kw_on() != kw_fatal()) by {
        assert(kw_on().len() != kw_success().len());
        assert(kw_on().len() != kw_recoverable().len());
        assert(kw_on().len() != kw_fatal().len());
    }
    assert(kw_on() != kw_data() && kw_on() != kw_terminal()) by {
        assert(kw_on().len() != kw_data().len());
        assert(kw_on().len() != kw_terminal().len());
    }
    match t.transition_type {
        TransitionType::Default => {
            assert(kl.len() == 0);
            assert(transition_kind(word_at(cs, toks, p)) is None);
        },
        _ => {
            assert(kl.len() == 1);
            assert(kl[0] == ls[p]);
            assert(toks[p].kind == TokenKind::Word);
            assert(kw_success() != kw_recoverable() && kw_success() != kw_fatal()
                && kw_recoverable() != kw_fatal()) by {
                assert(kw_success().len() != kw_recoverable().len());
                assert(kw_success().len() != kw_fatal().len());
                assert(kw_recoverable().len() != kw_fatal().len());
            }
            assert(kl[0] != kw_data() && kl[0] != kw_terminal()) by {
                assert(kl[0].len() != kw_data().len());
                assert(kl[0].len() != kw_terminal().len());
            }
            assert(transition_kind(word_at(cs, toks, p)) == Some(t.transition_type));
        },
    }
    assert(transition_lexemes(t).len() == kl.len() + 5);
}

/// A run of transitions inside a state body.
proof fn lemma_transitions_parse(
    cs: Seq<char>,
    toks: Seq<Token>,
    ls: Seq<Seq<char>>,
    p: int,
    ts: Seq<SpecTransition>,
    body: SpecBody,
    terr: Option<Seq<char>>,
)
    requires
        toks_match(cs, toks, ls),
        transitions_named(ts),
        lexemes_at(ls, p, transitions_lexemes(ts)),
    ensures
        spec_state_items(cs, toks, p, body, terr) == spec_state_items(
            cs,
            toks,
            p + transitions_lexemes(ts).len(),
            SpecBody { transitions: body.transitions + ts, ..body },
            terr,
        ),
    decreases ts.len(),
{
    if ts.len() == 0 {
        assert(body.transitions + ts =~= body.transitions);
    } else {
        let t = ts[0];
        let rest = ts.drop_first();
        lemma_at_split(ls, p, transition_lexemes(t), transitions_lexemes(rest));
        assert(is_ident(t.event) && is_ident(t.target));
        lemma_transition_parse(cs, toks, ls, p, t);
        assert forall|k: int| 0 <= k < rest.len() implies is_ident(#[trigger] rest[k].event)
            && is_ident(rest[k].target) by {
            assert(rest[k] == ts[k + 1]);
        }
        let next = SpecBody { transitions: body.transitions.push(t), ..body };
        lemma_transitions_parse(cs, toks, ls, p + transition_lexemes(t).len(), rest, next, terr);
        assert(body.transitions.push(t) + rest =~= body.transitions + ts);
    }
}

/// The closing brace of a state body.
proof fn lemma_body_end(
    cs: Seq<char>,
    toks: Seq<Token>,
    ls: Seq<Seq<char>>,
    p: int,
    body: SpecBody,
    terr: Option<Seq<char>>,
)
    requires
        toks_match(cs, toks, ls),
        lexemes_at(ls, p, seq![lx_right()]),
    ensures
        spec_state_items(cs, toks, p, body, terr) == Ok::<_, crate::parser::SpecParseError>(
            (body, terr, p + 1),
        ),
{
    lemma_keywords();
    assert(seq![lx_right()][0] == lx_right());
    assert(toks[p].kind == TokenKind::RightBrace);
}

/// The `data` block of a state body.
proof fn lemma_data_parse(
    cs: Seq<char>,
    toks: Seq<Token>,
    ls: Seq<Seq<char>>,
    p: int,
    b: SpecDataBlock,
    body: SpecBody,
    terr: Option<Seq<char>>,
)
    requires
        toks_match(cs, toks, ls),
        fields_named(b.fields),
        lexemes_at(ls, p, data_lexemes(Some(b))),
    ensures
        spec_state_items(cs, toks, p, body, terr) == spec_state_items(
            cs,
            toks,
            p + data_lexemes(Some(b)).len(),
            SpecBody { data: Some(b), ..body },
            terr,
        ),
{
    lemma_keywords();
    lemma_at_split(ls, p, seq![kw_data()], block_lexemes(b));
    assert(seq![kw_data()][0] == kw_data());
    assert(toks[p].kind == TokenKind::Word);
    assert(word_at(cs, toks, p) == Some(kw_data()));
    lemma_block_parse(cs, toks, ls, p + 1, b, terr);
}

/// The `terminal;` item of a state body.
proof fn lemma_terminal_parse(
    cs: Seq<char>,
    toks: Seq<Token>,
    ls: Seq<Seq<char>>,
    p: int,
    body: SpecBody,
    terr: Option<Seq<char>>,
)
    requires
        toks_match(cs, toks, ls),
        lexemes_at(ls, p, terminal_lexemes(true)),
    ensures
        spec_state_items(cs, toks, p, body, terr) == spec_state_items(
            cs,
            toks,
            p + 2,
            SpecBody { is_terminal: true, ..body },
            terr,
        ),
{
    lemma_keywords();
    let xs = terminal_lexemes(true);
    assert(xs[0] == kw_terminal());
    assert(xs[1] == lx_semi());
    assert(toks[p].kind == TokenKind::Word);
    assert(toks[p + 1].kind == TokenKind::Semicolon);
    assert(word_at(cs, toks, p) == Some(kw_terminal()));
    assert(kw_terminal() != kw_data()) by {
        assert(kw_terminal().len() != kw_data().len());
    }
}

/// A whole state body, after its opening brace.
proof fn lemma_body_parse(
    cs: Seq<char>,
    toks: Seq<Token>,
    ls: Seq<Seq<char>>,
    p: int,
    st: SpecState,
    terr: Option<Seq<char>>,
)
    requires
        toks_match(cs, toks, ls),
        state_named(st),
        lexemes_at(
            ls,
            p,
            transitions_lexemes(st.transitions) + data_lexemes(st.data) + terminal_lexemes(
                st.is_terminal,
            ) + seq![lx_right()],
        ),
    ensures
        spec_state_items(cs, toks, p, empty_body(), terr) == Ok::<_, crate::parser::SpecParseError>(
            (
                SpecBody {
                    transitions: st.transitions,
                    data: st.data,
                    is_terminal: st.is_terminal,
                },
                terr,
                p + transitions_lexemes(st.transitions).len() + data_lexemes(st.data).len()
                    + terminal_lexemes(st.is_terminal).len() + 1,
            ),
        ),
{
    let tl = transitions_lexemes(st.transitions);
    let dl = data_lexemes(st.data);
    let ml = terminal_lexemes(st.is_terminal);
    let r = seq![lx_right()];
    lemma_at_split(ls, p, tl + dl + ml, r);
    lemma_at_split(ls, p, tl + dl, ml);
    lemma_at_split(ls, p, tl, dl);
    let b0 = empty_body();
    lemma_transitions_parse(cs, toks, ls, p, st.transitions, b0, terr);
    let b1 = SpecBody { transitions: b0.transitions + st.transitions, ..b0 };
    assert(b0.transitions + st.transitions =~= st.transitions);
    let p1 = p + tl.len();
    let b2 = SpecBody { data: st.data, ..b1 };
    match st.data {
        Some(b) => {
            lemma_data_parse(cs, toks, ls, p1, b, b1, terr);
        },
        None => {
            assert(dl.len() == 0);
        },
    }
    let p2 = p1 + dl.len();
    assert(spec_state_items(cs, toks, p, b0, terr) == spec_state_items(cs, toks, p2, b2, terr));
    let b3 = SpecBody { is_terminal: st.is_terminal, ..b2 };
    if st.is_terminal {
        lemma_terminal_parse(cs, toks, ls, p2, b2, terr);
    } else {
        assert(ml.len() == 0);
    }
    let p3 = p2 + ml.len();
    lemma_body_end(cs, toks, ls, p3, b3, terr);
}

/// One state among the items of a program.
proof fn lemma_state_parse(
    cs: Seq<char>,
    toks: Seq<Token>,
    ls: Seq<Seq<char>>,
    p: int,
    st: SpecState,
    context: Option<SpecDataBlock>,
    states: Seq<SpecState>,
    terr: Option<Seq<char>>,
)
    requires
        toks_match(cs, toks, ls),
        state_named(st),
        lexemes_at(ls, p, state_lexemes(st)),
    ensures
        spec_items(cs, toks, p, context, states, terr) == spec_items(
            cs,
            toks,
            p + state_lexemes(st).len(),
            context,
            states.push(st),
            terr,
        ),
{
    lemma_keywords();
    let head = seq![kw_state(), st.name, lx_left()];
    let bl = transitions_lexemes(st.transitions) + data_lexemes(st.data) + terminal_lexemes(
        st.is_terminal,
    ) + seq![lx_right()];
    assert(state_lexemes(st) =~= head + bl);
    lemma_at_split(ls, p, head, bl);
    assert(head[0] == kw_state());
    assert(head[1] == st.name);
    assert(head[2] == lx_left());
    lemma_ident_kind(st.name);
    assert(toks[p].kind == TokenKind::Word);
    assert(toks[p + 1].kind == TokenKind::Word);
    assert(toks[p + 2].kind == TokenKind::LeftBrace);
    assert(word_at(cs, toks, p) == Some(kw_state()));
    assert(ident_at(cs, toks, p + 1) == Some(st.name));
    assert(kw_state() != kw_context()) by {
        assert(kw_state().len() != kw_context().len());
    }
    lemma_body_parse(cs, toks, ls, p + 3, st, terr);
    let found = SpecState {
        name: st.name,
        transitions: st.transitions,
        data: st.data,
        is_terminal: st.is_terminal,
    };
    assert(found == st);
}

/// The states of a program, in order.
proof fn lemma_states_parse(
    cs: Seq<char>,
    toks: Seq<Token>,
    ls: Seq<Seq<char>>,
    p: int,
    ss: Seq<SpecState>,
    context: Option<SpecDataBlock>,
    states: Seq<SpecState>,
    terr: Option<Seq<char>>,
)
    requires
        toks_match(cs, toks, ls),
        forall|k: int| 0 <= k < ss.len() ==> state_named(#[trigger] ss[k]),
        lexemes_at(ls, p, states_lexemes(ss)),
    ensures
        spec_items(cs, toks, p, context, states, terr) == spec_items(
            cs,
            toks,
            p + states_lexemes(ss).len(),
            context,
            states + ss,
            terr,
        ),
    decreases ss.len(),
{
    if ss.len() == 0 {
        assert(states + ss =~= states);
    } else {
        let rest = ss.drop_first();
        lemma_at_split(ls, p, state_lexemes(ss[0]), states_lexemes(rest));
        assert(state_named(ss[0]));
        lemma_state_parse(cs, toks, ls, p, ss[0], context, states, terr);
        assert forall|k: int| 0 <= k < rest.len() implies state_named(#[trigger] rest[k]) by {
            assert(rest[k] == ss[k + 1]);
        }
        lemma_states_parse(
            cs,
            toks,
            ls,
            p + state_lexemes(ss[0]).len(),
            rest,
            context,
            states.push(ss[0]),
            terr,
        );
        assert(states.push(ss[0]) + rest =~= states + ss);
    }
}

/// Writing a program out in its canonical text and reading that text back
/// gives the same program, for every program whose names (of states, events,
/// targets and fields) are identifiers and whose text fits the parser's
/// input limit.
pub proof fn lemma_render_parses(p: SpecProgram)
    requires
        program_named(p),
        render(p).len() < usize::MAX,
    ensures
        spec_parse_dsl(render(p)) == Ok::<SpecProgram, crate::parser::SpecParseError>(p),
{
    let ls = program_lexemes(p);
    let cs = render(p);
    lemma_program_ok(p);
    lemma_lex_spaced(ls);
    let toks = tokens_for(ls);
    lemma_tokens_match(ls);
    let cl = context_lexemes(p.context);
    let sl = states_lexemes(p.states);
    assert(lexemes_at(ls, 0, cl + sl)) by {
        assert forall|j: int| 0 <= j < (cl + sl).len() implies ls[0 + j] == #[trigger] (cl + sl)[j] by {}
    }
    lemma_at_split(ls, 0, cl, sl);
    let empty: Seq<SpecState> = Seq::empty();
    match p.context {
        Some(b) => {
            lemma_keywords();
            lemma_at_split(ls, 0, seq![kw_context()], block_lexemes(b));
            assert(seq![kw_context()][0] == kw_context());
            assert(toks[0].kind == TokenKind::Word);
            assert(word_at(cs, toks, 0) == Some(kw_context()));
            lemma_block_parse(cs, toks, ls, 1, b, None);
            assert(spec_items(cs, toks, 0, None, empty, None) == spec_items(
                cs,
                toks,
                cl.len() as int,
                Some(b),
                empty,
                None,
            ));
        },
        None => {
            assert(cl.len() == 0);
        },
    }
    lemma_states_parse(cs, toks, ls, cl.len() as int, p.states, p.context, empty, None);
    assert(empty + p.states =~= p.states);
    assert(cl.len() + sl.len() == toks.len());
}

proof fn lemma_spaced_len(ls: Seq<Seq<char>>, m: int)
    requires
        0 <= m,
        forall|k: int| 0 <= k < ls.len() ==> (#[trigger] ls[k]).len() <= m,
    ensures
        spaced(ls).len() <= ls.len() * (m + 1),
    decreases ls.len(),
{
    if ls.len() > 0 {
        let d = ls.drop_last();
        assert forall|k: int| 0 <= k < d.len() implies (#[trigger] d[k]).len() <= m by {
            assert(d[k] == ls[k]);
        }
        lemma_spaced_len(d, m);
        let a = d.len();
        assert(a * (m + 1) + (m + 1) == (a + 1) * (m + 1)) by (nonlinear_arith);
    }
}

/// Any word that starts with an ASCII letter or `_` and goes on with ASCII
/// letters, digits or `_` is read as a state name: the one-state program
/// `state <name> { terminal; }` reads back as itself.
pub proof fn lemma_any_ident_names_a_state(n: Seq<char>)
    requires
        0 < n.len() < 0x1000_0000,
        'a' <= n[0] <= 'z' || 'A' <= n[0] <= 'Z' || n[0] == '_',
        forall|k: int|
            0 <= k < n.len() ==> ('a' <= #[trigger] n[k] <= 'z' || 'A' <= n[k] <= 'Z' || '0' <= n[k]
                <= '9' || n[k] == '_'),
    ensures
        ({
            let p = SpecProgram {
                context: None,
                states: seq![
                    SpecState {
                        name: n,
                        transitions: Seq::empty(),
                        data: None,
                        is_terminal: true,
                    },
                ],
            };
            spec_parse_dsl(render(p)) == Ok::<SpecProgram, crate::parser::SpecParseError>(p)
        }),
{
    let st = SpecState { name: n, transitions: Seq::empty(), data: None, is_terminal: true };
    let p = SpecProgram { context: None, states: seq![st] };
    crate::parser::lemma_ident_chars(n);
    assert(n.len() > 0);
    assert(is_ident(n));
    assert(state_named(st));
    assert(program_named(p)) by {
        assert forall|k: int| 0 <= k < p.states.len() implies state_named(#[trigger] p.states[k]) by {
            assert(p.states[k] == st);
        }
    }
    let ls = program_lexemes(p);
    assert(ls =~= seq![kw_state(), n, lx_left(), kw_terminal(), lx_semi(), lx_right()]) by {
        assert(transitions_lexemes(st.transitions) =~= Seq::<Seq<char>>::empty());
        assert(states_lexemes(p.states) =~= state_lexemes(st) + states_lexemes(
            p.states.drop_first(),
        ));
        assert(p.states.drop_first() =~= Seq::<SpecState>::empty());
    }
    assert(render(p).len() < usize::MAX) by {
        let m: int = 0x1000_0000;
        assert forall|k: int| 0 <= k < ls.len() implies (#[trigger] ls[k]).len() <= m by {
            if k != 1 {
                assert(ls[k].len() <= 8);
            }
        }
        lemma_spaced_len(ls, m);
        assert(ls.len() * (m + 1) == 6 * (m + 1));
    }
    lemma_render_parses(p);
}

} // verus!
