//! Compiled search patterns and the calls into the regular-expression engine.

use regex::Regex;
use vstd::prelude::*;
use vstd::utf8::{encode_utf8, is_char_boundary};

verus! {

/// The engine's compiled expression. Nothing inside it is visible to proofs.
#[verifier::external_type_specification]
#[verifier::external_body]
pub struct ExRegex(regex::Regex);

/// A stretch of a line, by byte offsets: `start` is the first byte of the
/// stretch, `end` the byte after its last.
#[derive(Debug, Clone, Copy, PartialEq, Eq)]
pub struct Span {
    pub start: usize,
    pub end: usize,
}

/// A compiled search pattern.
///
/// It keeps the expression's text beside the engine's compiled form. The only
/// way to make one is [`Pattern::new`], and the two are put together in the
/// one place where the engine is asked to compile, so the compiled form is
/// always the engine's compilation, under its default settings, of that text.
#[derive(Debug)]
pub struct Pattern {
    source: String,
    compiled: Regex,
}

/// Why a pattern was rejected.
#[derive(Debug, Clone, PartialEq, Eq)]
pub struct PatternError {
    /// The engine's description of the fault.
    pub message: String,
}

/// Whether the engine, with its default settings and limits, accepts `source`
/// as a regular expression.
pub uninterp spec fn compiles(source: Seq<char>) -> bool;

/// The engine's description of why it does not accept `source`.
pub uninterp spec fn rejection(source: Seq<char>) -> Seq<char>;

/// The matches that the engine reports for the expression `pattern`, compiled
/// with default settings, in `line`: successive, non-overlapping, leftmost
/// first, as byte offsets into the UTF-8 encoding of `line`.
pub uninterp spec fn match_spans(pattern: Seq<char>, line: Seq<char>) -> Seq<Span>;

/// The spans lie one after the other, without overlap, between the offset
/// `from` and the end of a line of `len` bytes.
pub open spec fn in_order(len: int, spans: Seq<Span>, from: int) -> bool {
    &&& 0 <= from <= len
    &&& forall|i: int|
        0 <= i < spans.len() ==> from <= (#[trigger] spans[i]).start <= spans[i].end <= len
    &&& forall|i: int, j: int|
        0 <= i < j < spans.len() ==> (#[trigger] spans[i]).end <= (#[trigger] spans[j]).start
}

/// The spans lie in `bytes` one after the other without overlap, and each
/// offset falls between two encoded characters.
pub open spec fn spans_fit(bytes: Seq<u8>, spans: Seq<Span>) -> bool {
    &&& in_order(bytes.len() as int, spans, 0)
    &&& forall|i: int|
        0 <= i < spans.len() ==> is_char_boundary(bytes, (#[trigger] spans[i]).start as int)
            && is_char_boundary(bytes, spans[i].end as int)
}

/// `Regex::new`, and `to_string` of the `regex::Error` that it gives.
///
/// The engine's verdict on `source` and the wording of its error depend on
/// `source` alone. On success the pattern is put together here, from the text
/// that was handed to the engine and the compiled form that came back, so
/// that the two always belong together.
#[verifier::external_body]
fn compile(source: &str) -> (outcome: Result<Pattern, String>)
    ensures
        outcome is Ok <==> compiles(source@),
        outcome matches Ok(pattern) ==> pattern@ == source@,
        outcome matches Err(message) ==> message@ == rejection(source@),
{
    match Regex::new(source) {
        Ok(compiled) => Ok(Pattern { source: source.to_owned(), compiled }),
        Err(error) => Err(error.to_string()),
    }
}

/// `Regex::is_match`: true exactly when the engine finds at least one match
/// of the pattern anywhere in `line`.
#[verifier::external_body]
pub(crate) fn is_match(pattern: &Pattern, line: &str) -> (found: bool)
    ensures
        found == (match_spans(pattern@, line@).len() > 0),
{
    pattern.compiled.is_match(line)
}

/// `Regex::find_iter`, with `Match::start` and `Match::end` of every match it
/// yields, in the order in which it yields them. The engine documents that
/// the matches are successive and do not overlap, that `start <= end`, and
/// that both offsets can be used to slice the line, so they lie within it on
/// character boundaries.
#[verifier::external_body]
pub(crate) fn find_all(pattern: &Pattern, line: &str) -> (spans: Vec<Span>)
    ensures
        spans@ == match_spans(pattern@, line@),
        spans_fit(encode_utf8(line@), spans@),
{
    pattern.compiled.find_iter(line).map(|m| Span { start: m.start(), end: m.end() }).collect()
}

impl View for Pattern {
    type V = Seq<char>;

    /// The text of the expression.
    closed spec fn view(&self) -> Seq<char> {
        self.source@
    }
}

impl Pattern {
    /// Compiles the regular expression `source`.
    ///
    /// The engine decides whether `source` is acceptable: it rejects text that
    /// is not a well-formed expression and expressions whose compiled form
    /// would be too large. The error carries the engine's description.
    pub fn new(source: &str) -> (made: Result<Pattern, PatternError>)
        ensures
            made is Ok <==> compiles(source@),
            made matches Ok(pattern) ==> pattern@ == source@,
            made matches Err(error) ==> error.message@ == rejection(source@),
    {
        match compile(source) {
            Ok(pattern) => Ok(pattern),
            Err(message) => Err(PatternError { message }),
        }
    }

    /// The text this pattern was compiled from.
    pub fn as_str(&self) -> (text: &str)
        ensures
            text@ == self@,
    {
        self.source.as_str()
    }
}

} // verus!
