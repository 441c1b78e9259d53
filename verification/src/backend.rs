//! Code generators and the target languages they serve.

use vstd::prelude::*;
use crate::ast::TytoProgram;

verus! {

/// A code generator for one target language.
pub trait Generator {
    /// The code for a program.
    fn generate(&self, program: &TytoProgram) -> String;

    /// The file extension of the generated code.
    fn extension(&self) -> &'static str;
}

/// The languages that have a generator.
#[derive(Debug, Clone, Copy, PartialEq, Eq, Structural)]
pub enum TargetLanguage {
    TypeScript,
    Rust,
    Mermaid,
    Java,
}

/// The language named `lang`, if it has a generator.
pub open spec fn spec_target_language(lang: Seq<char>) -> Option<TargetLanguage> {
    if lang == seq!['t', 'y', 'p', 'e', 's', 'c', 'r', 'i', 'p', 't'] {
        Some(TargetLanguage::TypeScript)
    } else if lang == seq!['r', 'u', 's', 't'] {
        Some(TargetLanguage::Rust)
    } else if lang == seq!['m', 'e', 'r', 'm', 'a', 'i', 'd'] {
        Some(TargetLanguage::Mermaid)
    } else if lang == seq!['j', 'a', 'v', 'a'] {
        Some(TargetLanguage::Java)
    } else {
        None
    }
}

/// The generator for a language name: `typescript`, `rust`, `mermaid` or `java`.
pub fn get_generator(lang: &str) -> (r: Option<TargetLanguage>)
    ensures
        r == spec_target_language(lang@),
{
    let cs = crate::text::chars_of(lang);
    let n = cs.len();
    if crate::text::range_equals(&cs, 0, n, &vec!['t', 'y', 'p', 'e', 's', 'c', 'r', 'i', 'p', 't']) {
        assert(cs@.subrange(0, n as int) =~= lang@);
        Some(TargetLanguage::TypeScript)
    } else if crate::text::range_equals(&cs, 0, n, &vec!['r', 'u', 's', 't']) {
        assert(cs@.subrange(0, n as int) =~= lang@);
        Some(TargetLanguage::Rust)
    } else if crate::text::range_equals(&cs, 0, n, &vec!['m', 'e', 'r', 'm', 'a', 'i', 'd']) {
        assert(cs@.subrange(0, n as int) =~= lang@);
        Some(TargetLanguage::Mermaid)
    } else if crate::text::range_equals(&cs, 0, n, &vec!['j', 'a', 'v', 'a']) {
        assert(cs@.subrange(0, n as int) =~= lang@);
        Some(TargetLanguage::Java)
    } else {
        assert(cs@.subrange(0, n as int) =~= lang@);
        None
    }
}

} // verus!
