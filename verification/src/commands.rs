//! The decisions of the `compile` and `build` commands: which targets to
//! compile, where their output goes, which modules to build and how the
//! build is summed up.

use vstd::prelude::*;
use crate::compiler::{CompileTarget, resolve_output_dir, tilde_outcome, placed_dir, spec_path_join};
use crate::config::{LocalConfig, first_key, lemma_first_key};
use crate::text::{chars_of, split_trimmed, split_on, trim, strings_view, decimal, push_decimal};

verus! {

/// Whether `s` is the current directory `.`.
pub fn is_current_dir(s: &str) -> (r: bool)
    ensures
        r == (s@ == seq!['.']),
{
    let cs = chars_of(s);
    let r = cs.len() == 1 && cs[0] == '.';
    assert(r ==> cs@ =~= seq!['.']);
    r
}

/// Where the `compile` command writes language `lang`: the directory that the
/// source's module configuration gives for it (expanded and taken from the
/// source directory), else the `--out-dir` value when there is a
/// configuration or the value is not `.`, else the source directory.
pub open spec fn compile_dir_ok(
    source_dir: Seq<char>,
    out_dir: Seq<char>,
    config: Option<&LocalConfig>,
    lang: Seq<char>,
    dir: Seq<char>,
) -> bool {
    match config {
        Some(c) => match first_key(c.targets@, lang) {
            Some(i) => exists|expanded: Seq<char>|
                tilde_outcome(c.targets@[i].1.out_dir@, expanded) && dir == placed_dir(
                    source_dir,
                    expanded,
                ),
            None => dir == out_dir,
        },
        None => if out_dir != seq!['.'] {
            dir == out_dir
        } else {
            dir == source_dir
        },
    }
}

/// Where the `compile` command writes a language: with no module
/// configuration, the `--out-dir` value unless it is `.`, in which case the
/// source directory.
pub proof fn lemma_compile_dir_without_config(
    source_dir: Seq<char>,
    out_dir: Seq<char>,
    lang: Seq<char>,
    dir: Seq<char>,
)
    ensures
        compile_dir_ok(source_dir, out_dir, None, lang, dir) <==> dir == if out_dir =~= seq!['.'] {
            source_dir
        } else {
            out_dir
        },
{
}

/// With a module configuration that has no entry for the language, the
/// `compile` command writes it to the `--out-dir` value, whatever that is.
pub proof fn lemma_compile_dir_unlisted(
    source_dir: Seq<char>,
    out_dir: Seq<char>,
    config: LocalConfig,
    lang: Seq<char>,
    dir: Seq<char>,
)
    requires
        forall|k: int| 0 <= k < config.targets@.len() ==> (#[trigger] config.targets@[k]).0@ != lang,
    ensures
        compile_dir_ok(source_dir, out_dir, Some(&config), lang, dir) <==> dir == out_dir,
{
    lemma_first_key(config.targets@, lang);
}

/// With a module configuration whose first entry for the language is entry
/// `i`, the `compile` command writes it to that entry's directory, expanded
/// and taken from the source directory.
pub proof fn lemma_compile_dir_listed(
    source_dir: Seq<char>,
    out_dir: Seq<char>,
    config: LocalConfig,
    lang: Seq<char>,
    dir: Seq<char>,
    i: int,
)
    requires
        0 <= i < config.targets@.len(),
        config.targets@[i].0@ == lang,
        forall|k: int| 0 <= k < i ==> (#[trigger] config.targets@[k]).0@ != lang,
    ensures
        compile_dir_ok(source_dir, out_dir, Some(&config), lang, dir) <==> exists|expanded: Seq<char>|
            tilde_outcome(config.targets@[i].1.out_dir@, expanded) && dir == placed_dir(
                source_dir,
                expanded,
            ),
{
    lemma_first_key(config.targets@, lang);
    match first_key(config.targets@, lang) {
        Some(j) => {
            if j < i {
                assert(config.targets@[j].0@ != lang);
            }
            if i < j {
                assert(config.targets@[i].0@ != lang);
            }
        },
        None => {
            assert(config.targets@[i].0@ != lang);
        },
    }
}

/// The targets of the `compile` command: one per comma-separated entry of
/// `langs` (trimmed), in order, each with its output directory.
pub fn compile_targets(
    source_dir: &str,
    langs: &str,
    out_dir: &str,
    local_config: Option<&LocalConfig>,
) -> (r: Vec<CompileTarget>)
    ensures
        r@.len() == split_on(langs@, ',').len(),
        forall|k: int|
            0 <= k < r@.len() ==> (#[trigger] r@[k]).lang@ == trim(split_on(langs@, ',')[k])
                && compile_dir_ok(source_dir@, out_dir@, local_config, r@[k].lang@, r@[k].out_dir@),
{
    let target_langs = split_trimmed(langs, ',');
    let ghost pieces = split_on(langs@, ',').map_values(|p: Seq<char>| trim(p));
    assert(strings_view(target_langs@) == pieces);
    let mut targets: Vec<CompileTarget> = Vec::new();
    let mut i: usize = 0;
    while i < target_langs.len()
        invariant
            strings_view(target_langs@) == pieces,
            pieces.len() == split_on(langs@, ',').len(),
            i <= target_langs@.len(),
            targets@.len() == i,
            forall|k: int|
                0 <= k < i ==> (#[trigger] targets@[k]).lang@ == pieces[k] && compile_dir_ok(
                    source_dir@,
                    out_dir@,
                    local_config,
                    targets@[k].lang@,
                    targets@[k].out_dir@,
                ),
        decreases target_langs@.len() - i,
    {
        let lang = &target_langs[i];
        assert(lang@ == pieces[i as int]);
        let resolved_dir = match local_config {
            Some(config) => match config.target(lang.as_str()) {
                Some(target) => resolve_output_dir(source_dir, Some(target.out_dir.as_str()), out_dir),
                None => resolve_output_dir(source_dir, None, out_dir),
            },
            None => if !is_current_dir(out_dir) {
                out_dir.to_owned()
            } else {
                source_dir.to_owned()
            },
        };
        targets.push(CompileTarget { lang: lang.clone(), out_dir: resolved_dir });
        i = i + 1;
    }
    targets
}

/// The targets of a module in a `build`: one per configured language, in the
/// order of `config.targets`, each writing to its configured directory (expanded
/// and taken from the module directory).
pub fn module_targets(module_dir: &str, config: &LocalConfig) -> (r: Vec<CompileTarget>)
    ensures
        r@.len() == config.targets@.len(),
        forall|k: int|
            0 <= k < r@.len() ==> (#[trigger] r@[k]).lang@ == config.targets@[k].0@ && exists|
                expanded: Seq<char>,
            |
                tilde_outcome(config.targets@[k].1.out_dir@, expanded) && r@[k].out_dir@
                    == placed_dir(module_dir@, expanded),
{
    let mut targets: Vec<CompileTarget> = Vec::new();
    let mut i: usize = 0;
    while i < config.targets.len()
        invariant
            i <= config.targets@.len(),
            targets@.len() == i,
            forall|k: int|
                0 <= k < i ==> (#[trigger] targets@[k]).lang@ == config.targets@[k].0@ && exists|
                    expanded: Seq<char>,
                |
                    tilde_outcome(config.targets@[k].1.out_dir@, expanded) && targets@[k].out_dir@
                        == placed_dir(module_dir@, expanded),
        decreases config.targets@.len() - i,
    {
        let (lang, target_config) = &config.targets[i];
        let out_dir = resolve_output_dir(module_dir, Some(target_config.out_dir.as_str()), module_dir);
        targets.push(CompileTarget { lang: lang.clone(), out_dir });
        i = i + 1;
    }
    targets
}

/// The source file of a module in a `build`: its configured source, taken
/// from the module directory.
pub fn module_source_path(module_dir: &str, config: &LocalConfig) -> (r: String)
    ensures
        r@ == spec_path_join(module_dir@, config.source@),
{
    crate::compiler::path_join(module_dir, config.source.as_str())
}

/// Whether a `build` that names `machine` (or none) builds the module in `dir_name`.
pub fn selects_module(machine: Option<&str>, dir_name: &str) -> (r: bool)
    ensures
        r == match machine {
            Some(m) => m@ == dir_name@,
            None => true,
        },
{
    match machine {
        Some(m) => m.to_owned() == dir_name.to_owned(),
        None => true,
    }
}

/// The closing line of a `build`: none when no module was built (a warning is
/// shown instead), else how many modules were built.
pub open spec fn spec_build_summary(modules: nat) -> Option<Seq<char>> {
    if modules == 0 {
        None
    } else {
        Some("Build finished ("@ + decimal(modules) + " module"@ + (if modules == 1 {
            ""@
        } else {
            "s"@
        }) + ")"@)
    }
}

/// The closing line of a `build` that built `modules` modules.
pub fn build_summary(modules: usize) -> (r: Option<String>)
    ensures
        match spec_build_summary(modules as nat) {
            Some(s) => r matches Some(t) && t@ == s,
            None => r is None,
        },
{
    if modules == 0 {
        return None;
    }
    let mut s = "Build finished (".to_owned();
    push_decimal(&mut s, modules);
    s.append(" module");
    if modules != 1 {
        s.append("s");
    } else {
        s.append("");
    }
    s.append(")");
    Some(s)
}

} // verus!
