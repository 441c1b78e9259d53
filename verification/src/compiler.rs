//! The compilation pipeline: parsing and checking a source text, collecting
//! what each target produced, and placing output directories.

use vstd::prelude::*;
use std::path::Path;
use crate::ast::{TytoProgram, SpecProgram, SpecState};
use crate::error::{Error, opt_view};
use crate::graph::{StateGraph, spec_edges, state_names, terminal_indices, transitions_before};
use crate::parser::{
    parse_dsl, spec_parse_dsl, SpecParseError, line_col, expected_text, SpecBody, spec_block,
    spec_transition, spec_state_items, spec_items, empty_body, kind_at, keyword_at, word_at,
    transition_kind, ident_at, kw_data, kw_terminal, kw_on, kw_context, kw_state,
    lemma_block_advances, lemma_state_items_advance,
};
use crate::lexer::{Token, TokenKind, spec_lex, lemma_lex_count};
use crate::text::{decimal, strings_view, split_words, words};
use crate::validator::{
    Validator, graph_errors, distinct_names, is_targeted, valid_pos, program_errors, state_errors,
    lemma_validation_matches_program, lemma_graph_built_iff_targets_exist,
};

verus! {

/// One language to generate and the directory to write it to.
#[derive(Debug, Clone)]
pub struct CompileTarget {
    pub lang: String,
    pub out_dir: String,
}

/// What to compile and where.
#[derive(Debug, Clone)]
pub struct CompileOptions {
    pub source_path: String,
    pub targets: Vec<CompileTarget>,
    /// Formatter command per target language.
    pub formatters: Option<Vec<(String, String)>>,
    pub module_name: Option<String>,
}

/// What a compilation produced.
#[derive(Debug, Clone)]
pub struct CompileResult {
    pub generated: Vec<GeneratedFile>,
    pub warnings: Vec<String>,
}

/// One written file.
#[derive(Debug, Clone)]
pub struct GeneratedFile {
    pub lang: String,
    pub path: String,
}

/// The message of a parse failure of the text `cs`.
pub open spec fn spec_parse_message(cs: Seq<char>, e: SpecParseError) -> Seq<char> {
    match e {
        SpecParseError::Syntax { offset, expected } => {
            let (l, c) = line_col(cs, offset as int);
            "line "@ + decimal(l) + ", column "@ + decimal(c) + ": expected "@ + expected_text(
                expected,
            )
        },
        SpecParseError::Type(m) => m,
    }
}

/// The programs that the graph builder can hold: fewer than `u32::MAX` states
/// and fewer than `u32::MAX` transitions in all.
pub open spec fn fits_graph(p: SpecProgram) -> bool {
    &&& p.states.len() < u32::MAX
    &&& transitions_before(p.states, p.states.len() as int) < u32::MAX
}

proof fn lemma_transitions_before_push(states: Seq<SpecState>, st: SpecState, k: int)
    requires
        0 <= k <= states.len(),
    ensures
        transitions_before(states.push(st), k) == transitions_before(states, k),
    decreases k,
{
    if k > 0 {
        lemma_transitions_before_push(states, st, k - 1);
        assert(states.push(st)[k - 1] == states[k - 1]);
    }
}

/// A state body holds at most one transition per token that it spans.
proof fn lemma_state_items_count(
    cs: Seq<char>,
    toks: Seq<Token>,
    p: int,
    body: SpecBody,
    terr: Option<Seq<char>>,
)
    ensures
        spec_state_items(cs, toks, p, body, terr) matches Ok((b, _, q)) ==> b.transitions.len()
            <= body.transitions.len() + q - p,
    decreases toks.len() - p,
{
    if kind_at(toks, p, TokenKind::RightBrace) {
    } else if keyword_at(cs, toks, p, kw_data()) {
        lemma_block_advances(cs, toks, p + 1, terr);
        if let Ok((b, t, q)) = spec_block(cs, toks, p + 1, terr) {
            lemma_state_items_count(cs, toks, q, SpecBody { data: Some(b), ..body }, t);
        }
    } else if keyword_at(cs, toks, p, kw_terminal()) {
        if kind_at(toks, p + 1, TokenKind::Semicolon) {
            lemma_state_items_count(cs, toks, p + 2, SpecBody { is_terminal: true, ..body }, terr);
        }
    } else if keyword_at(cs, toks, p, kw_on()) || transition_kind(word_at(cs, toks, p)) is Some {
        if let Ok((t, q)) = spec_transition(cs, toks, p) {
            lemma_state_items_count(
                cs,
                toks,
                q,
                SpecBody { transitions: body.transitions.push(t), ..body },
                terr,
            );
        }
    }
}

/// A program read from token `p` on holds at most one state or transition
/// per token.
proof fn lemma_items_count(
    cs: Seq<char>,
    toks: Seq<Token>,
    p: int,
    context: Option<crate::ast::SpecDataBlock>,
    states: Seq<SpecState>,
    terr: Option<Seq<char>>,
)
    requires
        0 <= p <= toks.len(),
    ensures
        spec_items(cs, toks, p, context, states, terr) matches Ok(prog) ==> prog.states.len()
            + transitions_before(prog.states, prog.states.len() as int) <= states.len()
            + transitions_before(states, states.len() as int) + toks.len() - p,
    decreases toks.len() - p,
{
    if p >= toks.len() {
    } else if keyword_at(cs, toks, p, kw_context()) {
        lemma_block_advances(cs, toks, p + 1, terr);
        if let Ok((b, t, q)) = spec_block(cs, toks, p + 1, terr) {
            lemma_items_count(cs, toks, q, Some(b), states, t);
        }
    } else if keyword_at(cs, toks, p, kw_state()) {
        if let Some(name) = ident_at(cs, toks, p + 1) {
            if kind_at(toks, p + 2, TokenKind::LeftBrace) {
                lemma_state_items_advance(cs, toks, p + 3, empty_body(), terr);
                lemma_state_items_count(cs, toks, p + 3, empty_body(), terr);
                if let Ok((body, t, q)) = spec_state_items(cs, toks, p + 3, empty_body(), terr) {
                    let st = SpecState {
                        name,
                        transitions: body.transitions,
                        data: body.data,
                        is_terminal: body.is_terminal,
                    };
                    let n = states.len() as int;
                    lemma_transitions_before_push(states, st, n);
                    assert(states.push(st)[n] == st);
                    assert(transitions_before(states.push(st), n + 1) == transitions_before(states, n)
                        + st.transitions.len());
                    lemma_items_count(cs, toks, q, context, states.push(st), t);
                }
            }
        }
    }
}

/// A text of fewer than `u32::MAX` characters that parses holds a program
/// that the state graph can index: it has fewer states and fewer transitions
/// than that, as each takes at least one character of the text.
pub proof fn lemma_short_text_fits_graph(cs: Seq<char>)
    requires
        cs.len() < u32::MAX,
    ensures
        spec_parse_dsl(cs) matches Ok(p) ==> fits_graph(p),
{
    lemma_lex_count(cs, 0, Seq::empty());
    if let Ok(toks) = spec_lex(cs, 0, Seq::empty()) {
        lemma_items_count(cs, toks, 0, None, Seq::empty(), None);
        assert(transitions_before(Seq::<SpecState>::empty(), 0) == 0);
    }
}

/// Whether a parsed program fits the state graph (`fits_graph`): fewer than
/// `u32::MAX` states and fewer than `u32::MAX` transitions in all.
pub fn program_fits_graph(program: &TytoProgram) -> (r: bool)
    ensures
        r == fits_graph(program@),
{
    let n = program.states.len();
    proof {
        assert(program@.states.len() == n);
    }
    if n >= 0xffff_ffff {
        return false;
    }
    let ghost states = program@.states;
    let mut total: usize = 0;
    let mut i: usize = 0;
    while i < n
        invariant
            n == program.states@.len() == states.len(),
            states == program@.states,
            i <= n,
            total == transitions_before(states, i as int),
            total < 0xffff_ffff,
        decreases n - i,
    {
        let k = program.states[i].transitions.len();
        assert(states[i as int].transitions.len() == k);
        if k >= 0xffff_ffff - total {
            proof {
                crate::graph::lemma_transitions_before_mono(states, i + 1, n as int);
            }
            return false;
        }
        total = total + k;
        i = i + 1;
    }
    true
}

/// The findings of the validator for the graph of a program whose edges are `es`.
pub open spec fn program_findings(p: SpecProgram, es: Seq<(nat, nat, Seq<char>)>) -> Seq<Seq<char>> {
    graph_errors(
        state_names(p.states),
        es,
        terminal_indices(p.states, p.states.len() as int),
        p.states.len() as int,
    )
}

/// Reads a source text, builds its state graph and validates it; `source_name`
/// names the text in a parse error and `module_name` the module in a
/// validation error.
pub fn parse_and_validate(source_code: &str, source_name: &str, module_name: Option<&str>) -> (r:
    Result<TytoProgram, Error>)
    requires
        source_code@.len() < usize::MAX,
        spec_parse_dsl(source_code@) matches Ok(p) ==> fits_graph(p),
    ensures
        match spec_parse_dsl(source_code@) {
            Err(e) => r matches Err(Error::Parse { source, message }) && source@ == source_name@
                && message@ == spec_parse_message(source_code@, e),
            Ok(p) => match spec_edges(p.states, 0, 0, Seq::empty()) {
                Err(m) => r matches Err(Error::Semantic { message }) && message@ == m,
                Ok(es) => if program_findings(p, es).len() == 0 {
                    r matches Ok(q) && q@ == p
                } else {
                    r matches Err(Error::Validation { module, errors }) && opt_view(module) == (
                    match module_name {
                        Some(m) => Some(m@),
                        None => None::<Seq<char>>,
                    }) && strings_view(errors@) == program_findings(p, es)
                },
            },
        },
{
    let ast = match parse_dsl(source_code) {
        Ok(ast) => ast,
        Err(e) => {
            let msg = e.message();
            return Err(Error::parse(source_name, msg.as_str()));
        },
    };
    let graph = match StateGraph::from_ast(&ast) {
        Ok(g) => g,
        Err(m) => {
            return Err(Error::semantic(m.as_str()));
        },
    };
    match Validator::validate(&graph) {
        Ok(()) => Ok(ast),
        Err(errors) => {
            let module = match module_name {
                Some(m) => Some(m.to_owned()),
                None => None,
            };
            Err(Error::validation(module, errors))
        },
    }
}

/// A program without the faults that compilation reports: every transition
/// leads to an existing state, every state has a transition or is terminal,
/// and every state after the first is the target of some transition.
pub open spec fn well_formed_program(p: SpecProgram) -> bool {
    &&& forall|i: int, j: int|
        valid_pos(p.states, i, j) ==> exists|k: int|
            0 <= k < p.states.len() && #[trigger] p.states[k].name
                == p.states[i].transitions[j].target
    &&& forall|i: int|
        0 <= i < p.states.len() ==> (#[trigger] p.states[i]).transitions.len() > 0
            || p.states[i].is_terminal
    &&& forall|i: int| 0 < i < p.states.len() ==> is_targeted(p.states, (#[trigger] p.states[i]).name)
}

/// Whether `parse_and_validate` hands back a parsed program rather than an error.
pub open spec fn accepted(p: SpecProgram) -> bool {
    spec_edges(p.states, 0, 0, Seq::empty()) matches Ok(es) && program_findings(p, es).len() == 0
}

proof fn lemma_no_program_errors(states: Seq<SpecState>, n: int)
    requires
        0 <= n <= states.len(),
    ensures
        program_errors(states, n).len() == 0 <==> forall|i: int|
            0 <= i < n ==> (#[trigger] state_errors(states, i)).len() == 0,
    decreases n,
{
    if n > 0 {
        lemma_no_program_errors(states, n - 1);
        if program_errors(states, n).len() == 0 {
            assert forall|i: int| 0 <= i < n implies (#[trigger] state_errors(states, i)).len() == 0 by {
                if i < n - 1 {
                } else {
                    assert(i == n - 1);
                }
            }
        }
    }
}

/// For a program whose state names are distinct, compilation accepts the
/// program exactly when it is well formed: no transition leads to an unknown
/// state, no state is a deadlock (no transition and not terminal), and no
/// state after the first is an orphan (no transition leads to it).
pub proof fn lemma_accepted_iff_well_formed(p: SpecProgram)
    requires
        distinct_names(p.states),
        p.states.len() <= usize::MAX,
    ensures
        accepted(p) <==> well_formed_program(p),
{
    let states = p.states;
    let n = states.len() as int;
    lemma_graph_built_iff_targets_exist(states);
    lemma_no_program_errors(states, n);
    if spec_edges(states, 0, 0, Seq::empty()) is Ok {
        lemma_validation_matches_program(states);
        if accepted(p) {
            assert forall|i: int| 0 <= i < n implies (#[trigger] states[i]).transitions.len() > 0
                || states[i].is_terminal by {
                assert(state_errors(states, i).len() == 0);
            }
            assert forall|i: int| 0 < i < n implies is_targeted(states, (#[trigger] states[i]).name) by {
                assert(state_errors(states, i).len() == 0);
            }
        }
        if well_formed_program(p) {
            assert forall|i: int| 0 <= i < n implies (#[trigger] state_errors(states, i)).len() == 0 by {
                assert(states[i].transitions.len() > 0 || states[i].is_terminal);
                if i > 0 {
                    assert(is_targeted(states, states[i].name));
                }
            }
        }
    }
}

/// The warning for a target language that has no generator.
pub open spec fn unsupported_warning(lang: Seq<char>) -> Seq<char> {
    "Target language '"@ + lang + "' is not supported"@
}

/// Takes in what generating one target gave: a written file is recorded, an
/// unsupported language becomes a warning, and any other error stops the
/// compilation (the result is then left as it was).
pub fn record_outcome(result: &mut CompileResult, outcome: Result<GeneratedFile, Error>) -> (r:
    Result<(), Error>)
    ensures
        match outcome {
            Ok(g) => r is Ok && final(result).generated@ == old(result).generated@.push(g)
                && final(result).warnings@ == old(result).warnings@,
            Err(Error::UnsupportedLanguage { lang }) => r is Ok && final(result).generated@ == old(
                result,
            ).generated@ && strings_view(final(result).warnings@) == strings_view(
                old(result).warnings@,
            ).push(unsupported_warning(lang@)),
            Err(e) => r == Err::<(), Error>(e) && *final(result) == *old(result),
        },
{
    match outcome {
        Ok(g) => {
            result.generated.push(g);
            Ok(())
        },
        Err(Error::UnsupportedLanguage { lang }) => {
            let mut w = "Target language '".to_owned();
            w.append(lang.as_str());
            w.append("' is not supported");
            let ghost before = result.warnings@;
            result.warnings.push(w);
            assert(strings_view(result.warnings@) =~= strings_view(before).push(w@));
            Ok(())
        },
        Err(e) => Err(e),
    }
}

/// The name of the file generated from a source with stem `file_stem`.
pub fn output_file_name(file_stem: &str, extension: &str) -> (r: String)
    ensures
        r@ == file_stem@ + "."@ + extension@,
{
    let mut s = file_stem.to_owned();
    s.append(".");
    s.append(extension);
    s
}

/// The name of the configuration file of a module or source with stem `stem`.
pub fn config_file_name(stem: &str) -> (r: String)
    ensures
        r@ == stem@ + ".yaml"@,
{
    let mut s = stem.to_owned();
    s.append(".yaml");
    s
}

/// The program and arguments that format a generated file: the words of the
/// configured command followed by the file's path; none for a blank command.
pub fn formatter_command(cmd_str: &str, file_path: &str) -> (r: Option<Vec<String>>)
    ensures
        match r {
            Some(argv) => words(cmd_str@).len() > 0 && strings_view(argv@) == words(cmd_str@).push(
                file_path@,
            ),
            None => words(cmd_str@).len() == 0,
        },
{
    let mut argv = split_words(cmd_str);
    if argv.len() == 0 {
        return None;
    }
    let ghost before = argv@;
    argv.push(file_path.to_owned());
    assert(strings_view(argv@) =~= strings_view(before).push(file_path@));
    Some(argv)
}

// ---------------------------------------------------------------------------
// Output directories
// ---------------------------------------------------------------------------

/// What `shellexpand::tilde` may make of `dir`: the text itself, or, when it
/// is `~` alone or `~` followed by a path separator, some home directory
/// followed by the rest of the text.
pub open spec fn tilde_outcome(dir: Seq<char>, expanded: Seq<char>) -> bool {
    ||| expanded == dir
    ||| {
        &&& dir.len() > 0
        &&& dir[0] == '~'
        &&& dir.len() == 1 || dir[1] == '/' || dir[1] == '\\'
        &&& exists|home: Seq<char>| expanded == home + dir.drop_first()
    }
}

/// `shellexpand::tilde`: replaces a leading `~` that stands alone or before
/// a path separator (a slash, or on Windows also a backslash) with the user's home
/// directory when it is known, and leaves the text as it is otherwise. The
/// home directory comes from the environment, so the contract only says
/// which of these forms the result takes.
#[verifier::external_body]
fn expand_tilde(dir: &str) -> (r: String)
    ensures
        tilde_outcome(dir@, r@),
{
    shellexpand::tilde(dir).into_owned()
}

/// Whether a path is absolute, as `Path::is_absolute` decides on the target platform.
pub uninterp spec fn spec_path_is_absolute(p: Seq<char>) -> bool;

/// `Path::is_absolute`. The contract claims only that the answer is
/// `spec_path_is_absolute` of the text: the same text always gets the same answer.
#[verifier::external_body]
fn path_is_absolute(p: &str) -> (r: bool)
    ensures
        r == spec_path_is_absolute(p@),
{
    Path::new(p).is_absolute()
}

/// The path `Path::join` makes of a base and a relative path on the target platform.
pub uninterp spec fn spec_path_join(base: Seq<char>, rel: Seq<char>) -> Seq<char>;

/// `Path::join`, on paths given as text. The contract claims only that the
/// result is `spec_path_join` of the two texts; joining two texts gives a text
/// again, so the conversion back to a `String` loses nothing.
#[verifier::external_body]
pub(crate) fn path_join(base: &str, rel: &str) -> (r: String)
    ensures
        r@ == spec_path_join(base@, rel@),
{
    Path::new(base).join(rel).to_string_lossy().into_owned()
}

/// Where a configured output directory leads: after tilde expansion, an
/// absolute directory is kept and a relative one is taken from `base_dir`.
pub open spec fn placed_dir(base_dir: Seq<char>, expanded: Seq<char>) -> Seq<char> {
    if spec_path_is_absolute(expanded) {
        expanded
    } else {
        spec_path_join(base_dir, expanded)
    }
}

/// Places an output directory whose `~` has already been expanded: an
/// absolute one stays as it is, a relative one is joined to `base_dir`.
pub fn place_output_dir(base_dir: &str, expanded: &str) -> (r: String)
    ensures
        r@ == placed_dir(base_dir@, expanded@),
{
    if path_is_absolute(expanded) {
        expanded.to_owned()
    } else {
        path_join(base_dir, expanded)
    }
}

/// The output directory for a configured value, or `fallback` when there is none.
pub fn resolve_output_dir(base_dir: &str, config_out_dir: Option<&str>, fallback: &str) -> (r:
    String)
    ensures
        match config_out_dir {
            None => r@ == fallback@,
            Some(dir) => exists|expanded: Seq<char>|
                tilde_outcome(dir@, expanded) && r@ == placed_dir(base_dir@, expanded),
        },
{
    match config_out_dir {
        Some(dir) => {
            let expanded = expand_tilde(dir);
            place_output_dir(base_dir, expanded.as_str())
        },
        None => fallback.to_owned(),
    }
}

// ---------------------------------------------------------------------------
// Source paths
// ---------------------------------------------------------------------------

/// The path without its last component, as `Path::parent` gives it on the
/// target platform (`None` for a root, a bare prefix or the empty path).
pub uninterp spec fn spec_path_parent(p: Seq<char>) -> Option<Seq<char>>;

/// `Path::parent`, on a path given as text. The contract claims only that the
/// result is `spec_path_parent` of the text; the parent is a prefix of the
/// text, so the conversion back to a `String` loses nothing.
#[verifier::external_body]
fn path_parent(p: &str) -> (r: Option<String>)
    ensures
        opt_view(r) == spec_path_parent(p@),
{
    match Path::new(p).parent() {
        Some(d) => Some(d.to_string_lossy().into_owned()),
        None => None,
    }
}

/// The name of the last component without its extension, as
/// `Path::file_stem` gives it on the target platform (`None` when the path
/// has no file name).
pub uninterp spec fn spec_path_file_stem(p: Seq<char>) -> Option<Seq<char>>;

/// `Path::file_stem`, on a path given as text. The contract claims only that
/// the result is `spec_path_file_stem` of the text; the stem is a part of the
/// text, so the conversion back to a `String` loses nothing.
#[verifier::external_body]
fn path_file_stem(p: &str) -> (r: Option<String>)
    ensures
        opt_view(r) == spec_path_file_stem(p@),
{
    match Path::new(p).file_stem() {
        Some(s) => Some(s.to_string_lossy().into_owned()),
        None => None,
    }
}

/// The directory of a source file: its parent, or `.` when it has none.
pub fn source_dir_of(source: &str) -> (r: String)
    ensures
        r@ == match spec_path_parent(source@) {
            Some(d) => d,
            None => "."@,
        },
{
    match path_parent(source) {
        Some(d) => d,
        None => ".".to_owned(),
    }
}

/// The stem of a source file's name, which names what is generated from it;
/// `output` when the path has no file name.
pub fn file_stem_of(source: &str) -> (r: String)
    ensures
        r@ == match spec_path_file_stem(source@) {
            Some(s) => s,
            None => "output"@,
        },
{
    match path_file_stem(source) {
        Some(s) => s,
        None => "output".to_owned(),
    }
}

/// The configuration file of the source or module `stem` in `dir`: `<stem>.yaml` there.
pub fn config_path(dir: &str, stem: &str) -> (r: String)
    ensures
        r@ == spec_path_join(dir@, stem@ + ".yaml"@),
{
    let name = config_file_name(stem);
    path_join(dir, name.as_str())
}

} // verus!
