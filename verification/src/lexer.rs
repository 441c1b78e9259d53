//! Splitting DSL text into tokens.
//!
//! Blanks (space, tab, line feed, carriage return) and `//` comments that run
//! to the end of the line separate tokens. The tokens are the punctuation
//! `{ } ; : , ->` and words: maximal runs of ASCII letters, digits and the
//! characters `_ [ ] ?`. Any other character is a syntax error.

use vstd::prelude::*;
use crate::parser::{Expected, SpecParseError, RawError};

verus! {

/// What a token is.
#[derive(Debug, Clone, Copy, PartialEq, Eq, Structural)]
pub enum TokenKind {
    Word,
    LeftBrace,
    RightBrace,
    Semicolon,
    Colon,
    Comma,
    Arrow,
}

/// A token: its kind and the characters `start..end` of the input that it spans.
#[derive(Debug, Clone, Copy)]
pub struct Token {
    pub kind: TokenKind,
    pub start: usize,
    pub end: usize,
}

pub open spec fn is_blank(c: char) -> bool {
    c == ' ' || c == '\t' || c == '\n' || c == '\r'
}

pub open spec fn is_ascii_letter(c: char) -> bool {
    ('a' <= c && c <= 'z') || ('A' <= c && c <= 'Z')
}

pub open spec fn is_ascii_digit(c: char) -> bool {
    '0' <= c && c <= '9'
}

pub open spec fn is_word_char(c: char) -> bool {
    is_ascii_letter(c) || is_ascii_digit(c) || c == '_' || c == '[' || c == ']' || c == '?'
}

/// Every token spans characters of the input.
pub open spec fn tokens_wf(cs: Seq<char>, toks: Seq<Token>) -> bool {
    forall|k: int| 0 <= k < toks.len() ==> (#[trigger] toks[k]).start <= toks[k].end <= cs.len()
}

/// The end of the word that may begin at `i`.
pub open spec fn word_end(cs: Seq<char>, i: int) -> int
    decreases cs.len() - i,
{
    if 0 <= i < cs.len() && is_word_char(cs[i]) {
        word_end(cs, i + 1)
    } else {
        i
    }
}

/// The position of the line feed that ends the line holding `i` (or the end of the input).
pub open spec fn line_end(cs: Seq<char>, i: int) -> int
    decreases cs.len() - i,
{
    if 0 <= i < cs.len() && cs[i] != '\n' {
        line_end(cs, i + 1)
    } else {
        i
    }
}

pub proof fn lemma_word_end(cs: Seq<char>, i: int)
    requires
        0 <= i <= cs.len(),
    ensures
        i <= word_end(cs, i) <= cs.len(),
        i < cs.len() && is_word_char(cs[i]) ==> i < word_end(cs, i),
    decreases cs.len() - i,
{
    if i < cs.len() && is_word_char(cs[i]) {
        lemma_word_end(cs, i + 1);
    }
}

pub proof fn lemma_line_end(cs: Seq<char>, i: int)
    requires
        0 <= i <= cs.len(),
    ensures
        i <= line_end(cs, i) <= cs.len(),
    decreases cs.len() - i,
{
    if i < cs.len() && cs[i] != '\n' {
        lemma_line_end(cs, i + 1);
    }
}

pub open spec fn mk_token(kind: TokenKind, start: int, end: int) -> Token {
    Token { kind, start: start as usize, end: end as usize }
}

/// The tokens of `cs` from position `i` on, after those already in `acc`.
pub open spec fn spec_lex(cs: Seq<char>, i: int, acc: Seq<Token>) -> Result<Seq<Token>, SpecParseError>
    decreases cs.len() - i,
{
    if i < 0 || i >= cs.len() {
        Ok(acc)
    } else {
        let c = cs[i];
        if is_blank(c) {
            spec_lex(cs, i + 1, acc)
        } else if c == '/' && i + 1 < cs.len() && cs[i + 1] == '/' {
            proof {
                lemma_line_end(cs, i + 2);
            }
            spec_lex(cs, line_end(cs, i + 2), acc)
        } else if c == '{' {
            spec_lex(cs, i + 1, acc.push(mk_token(TokenKind::LeftBrace, i, i + 1)))
        } else if c == '}' {
            spec_lex(cs, i + 1, acc.push(mk_token(TokenKind::RightBrace, i, i + 1)))
        } else if c == ';' {
            spec_lex(cs, i + 1, acc.push(mk_token(TokenKind::Semicolon, i, i + 1)))
        } else if c == ':' {
            spec_lex(cs, i + 1, acc.push(mk_token(TokenKind::Colon, i, i + 1)))
        } else if c == ',' {
            spec_lex(cs, i + 1, acc.push(mk_token(TokenKind::Comma, i, i + 1)))
        } else if c == '-' && i + 1 < cs.len() && cs[i + 1] == '>' {
            spec_lex(cs, i + 2, acc.push(mk_token(TokenKind::Arrow, i, i + 2)))
        } else if is_word_char(c) {
            proof {
                lemma_word_end(cs, i);
            }
            spec_lex(cs, word_end(cs, i), acc.push(mk_token(TokenKind::Word, i, word_end(cs, i))))
        } else {
            Err(SpecParseError::Syntax { offset: i as nat, expected: Expected::Character })
        }
    }
}

/// Lexing from position `i` adds at most one token per remaining character.
pub proof fn lemma_lex_count(cs: Seq<char>, i: int, acc: Seq<Token>)
    requires
        0 <= i <= cs.len(),
    ensures
        spec_lex(cs, i, acc) matches Ok(ts) ==> ts.len() <= acc.len() + cs.len() - i,
    decreases cs.len() - i,
{
    if i < cs.len() {
        let c = cs[i];
        if is_blank(c) {
            lemma_lex_count(cs, i + 1, acc);
        } else if c == '/' && i + 1 < cs.len() && cs[i + 1] == '/' {
            lemma_line_end(cs, i + 2);
            lemma_lex_count(cs, line_end(cs, i + 2), acc);
        } else if c == '{' || c == '}' || c == ';' || c == ':' || c == ',' {
            let t = if c == '{' {
                mk_token(TokenKind::LeftBrace, i, i + 1)
            } else if c == '}' {
                mk_token(TokenKind::RightBrace, i, i + 1)
            } else if c == ';' {
                mk_token(TokenKind::Semicolon, i, i + 1)
            } else if c == ':' {
                mk_token(TokenKind::Colon, i, i + 1)
            } else {
                mk_token(TokenKind::Comma, i, i + 1)
            };
            lemma_lex_count(cs, i + 1, acc.push(t));
        } else if c == '-' && i + 1 < cs.len() && cs[i + 1] == '>' {
            lemma_lex_count(cs, i + 2, acc.push(mk_token(TokenKind::Arrow, i, i + 2)));
        } else if is_word_char(c) {
            lemma_word_end(cs, i);
            lemma_lex_count(
                cs,
                word_end(cs, i),
                acc.push(mk_token(TokenKind::Word, i, word_end(cs, i))),
            );
        }
    }
}

pub fn is_blank_exec(c: char) -> (r: bool)
    ensures
        r == is_blank(c),
{
    c == ' ' || c == '\t' || c == '\n' || c == '\r'
}

pub fn is_ascii_letter_exec(c: char) -> (r: bool)
    ensures
        r == is_ascii_letter(c),
{
    ('a' <= c && c <= 'z') || ('A' <= c && c <= 'Z')
}

pub fn is_ascii_digit_exec(c: char) -> (r: bool)
    ensures
        r == is_ascii_digit(c),
{
    '0' <= c && c <= '9'
}

pub fn is_word_char_exec(c: char) -> (r: bool)
    ensures
        r == is_word_char(c),
{
    is_ascii_letter_exec(c) || is_ascii_digit_exec(c) || c == '_' || c == '[' || c == ']' || c
        == '?'
}

fn scan_word(cs: &Vec<char>, i: usize) -> (j: usize)
    requires
        i <= cs@.len(),
    ensures
        j == word_end(cs@, i as int),
{
    let mut j = i;
    while j < cs.len() && is_word_char_exec(cs[j])
        invariant
            i <= j <= cs@.len(),
            word_end(cs@, i as int) == word_end(cs@, j as int),
        decreases cs@.len() - j,
    {
        j = j + 1;
    }
    j
}

fn scan_line(cs: &Vec<char>, i: usize) -> (j: usize)
    requires
        i <= cs@.len(),
    ensures
        j == line_end(cs@, i as int),
{
    let mut j = i;
    while j < cs.len() && cs[j] != '\n'
        invariant
            i <= j <= cs@.len(),
            line_end(cs@, i as int) == line_end(cs@, j as int),
        decreases cs@.len() - j,
    {
        j = j + 1;
    }
    j
}

/// The tokens of the whole input.
pub fn lex(cs: &Vec<char>) -> (r: Result<Vec<Token>, RawError>)
    ensures
        match r {
            Ok(ts) => spec_lex(cs@, 0, Seq::empty()) == Ok::<Seq<Token>, SpecParseError>(ts@)
                && tokens_wf(cs@, ts@),
            Err(e) => spec_lex(cs@, 0, Seq::empty()) == Err::<Seq<Token>, SpecParseError>(e@)
                && (e matches RawError::Syntax { offset, .. } && offset < cs@.len()),
        },
{
    let mut toks: Vec<Token> = Vec::new();
    let mut i: usize = 0;
    let n = cs.len();
    while i < n
        invariant
            n == cs@.len(),
            i <= n,
            tokens_wf(cs@, toks@),
            spec_lex(cs@, 0, Seq::empty()) == spec_lex(cs@, i as int, toks@),
        decreases n - i,
    {
        let c = cs[i];
        if is_blank_exec(c) {
            i = i + 1;
        } else if c == '/' && i + 1 < n && cs[i + 1] == '/' {
            proof { lemma_line_end(cs@, i + 2); }
            i = scan_line(cs, i + 2);
        } else if c == '-' && i + 1 < n && cs[i + 1] == '>' {
            toks.push(Token { kind: TokenKind::Arrow, start: i, end: i + 2 });
            i = i + 2;
        } else if c == '{' || c == '}' || c == ';' || c == ':' || c == ',' {
            let kind = if c == '{' {
                TokenKind::LeftBrace
            } else if c == '}' {
                TokenKind::RightBrace
            } else if c == ';' {
                TokenKind::Semicolon
            } else if c == ':' {
                TokenKind::Colon
            } else {
                TokenKind::Comma
            };
            toks.push(Token { kind, start: i, end: i + 1 });
            i = i + 1;
        } else if is_word_char_exec(c) {
            proof { lemma_word_end(cs@, i as int); }
            let j = scan_word(cs, i);
            toks.push(Token { kind: TokenKind::Word, start: i, end: j });
            i = j;
        } else {
            return Err(RawError::Syntax { offset: i, expected: Expected::Character });
        }
    }
    Ok(toks)
}

} // verus!
