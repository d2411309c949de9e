//! Matching lines against a pattern.

use crate::highlight::{highlight, highlighted};
use crate::lines::{
    byte_lines, chunk_lines, chunks, decode_line, law_bytes_and_text_agree, line_of_chunk,
    text_lines, LINE_FEED,
};
use crate::pattern::{find_all, is_match, match_spans, spans_fit, Pattern};
use crate::text::{opt_text, texts};
use vstd::prelude::*;
use vstd::utf8::*;

verus! {

/// What is shown for `line` under `pattern`: nothing if the pattern has no
/// match in the line, else the line with every match highlighted.
pub open spec fn rendering(pattern: Seq<char>, line: Seq<char>) -> Option<Seq<char>> {
    let spans = match_spans(pattern, line);
    if spans.len() == 0 {
        None
    } else {
        Some(decode_utf8(highlighted(encode_utf8(line), spans)))
    }
}

/// What is shown for `lines` under `pattern`: the renderings of the lines
/// that match, in the order of the lines.
pub open spec fn renderings(pattern: Seq<char>, lines: Seq<Seq<char>>) -> Seq<Seq<char>>
    decreases lines.len(),
{
    if lines.len() == 0 {
        seq![]
    } else {
        let earlier = renderings(pattern, lines.drop_last());
        match rendering(pattern, lines.last()) {
            Some(shown) => earlier.push(shown),
            None => earlier,
        }
    }
}

/// What is shown for one chunk of raw bytes under `pattern`: the rendering of
/// the line that the chunk holds, if it holds one and the pattern matches it.
pub open spec fn chunk_rendering(pattern: Seq<char>, chunk: Seq<u8>) -> Option<Seq<char>> {
    match line_of_chunk(chunk) {
        Some(line) => rendering(pattern, line),
        None => None,
    }
}

/// What is shown for a list of chunks under `pattern`, taken one by one in
/// order.
pub open spec fn chunk_renderings(pattern: Seq<char>, chunks: Seq<Seq<u8>>) -> Seq<Seq<char>>
    decreases chunks.len(),
{
    if chunks.len() == 0 {
        seq![]
    } else {
        let rest = chunk_renderings(pattern, chunks.drop_first());
        match chunk_rendering(pattern, chunks[0]) {
            Some(shown) => seq![shown] + rest,
            None => rest,
        }
    }
}

/// Matches `pattern` against `line`.
///
/// Returns the line with every match wrapped in the highlight markers, or
/// `None` if the pattern does not match anywhere in the line.
#[must_use]
pub fn match_pattern(pattern: &Pattern, line: &str) -> (found: Option<String>)
    ensures
        opt_text(found) == rendering(pattern@, line@),
        found is None <==> match_spans(pattern@, line@).len() == 0,
        spans_fit(encode_utf8(line@), match_spans(pattern@, line@)),
        found matches Some(text) ==> encode_utf8(text@) == highlighted(
            encode_utf8(line@),
            match_spans(pattern@, line@),
        ),
{
    if is_match(pattern, line) {
        let spans = find_all(pattern, line);
        Some(highlight(line, spans.as_slice()))
    } else {
        None
    }
}

/// Matches `pattern` against the line in one chunk of raw bytes, as a reader
/// hands them out that stops after every line feed. Nothing is shown for a
/// chunk that cannot be decoded, nor for a line without a match.
#[must_use]
pub fn match_chunk(pattern: &Pattern, chunk: &[u8]) -> (found: Option<String>)
    ensures
        opt_text(found) == chunk_rendering(pattern@, chunk@),
        line_of_chunk(chunk@) matches Some(line) ==> spans_fit(
            encode_utf8(line),
            match_spans(pattern@, line),
        ),
{
    match decode_line(chunk) {
        Some(line) => match_pattern(pattern, line.as_str()),
        None => None,
    }
}

/// Matches `pattern` against each of `lines` in turn and collects what is
/// shown: one entry for every line that matches, in the order of the lines.
pub fn match_lines(pattern: &Pattern, lines: &[String]) -> (out: Vec<String>)
    ensures
        texts(out@) == renderings(pattern@, texts(lines@)),
        forall|k: int|
            0 <= k < lines.len() ==> spans_fit(
                encode_utf8(#[trigger] lines[k]@),
                match_spans(pattern@, lines[k]@),
            ),
{
    let mut out: Vec<String> = Vec::new();
    let mut i: usize = 0;
    proof {
        assert(texts(lines@).take(0) =~= Seq::<Seq<char>>::empty());
        assert(texts(out@) =~= Seq::<Seq<char>>::empty());
    }
    while i < lines.len()
        invariant
            i <= lines.len(),
            texts(out@) == renderings(pattern@, texts(lines@).take(i as int)),
            forall|k: int|
                0 <= k < i ==> spans_fit(
                    encode_utf8(#[trigger] lines[k]@),
                    match_spans(pattern@, lines[k]@),
                ),
        decreases lines.len() - i,
    {
        let found = match_pattern(pattern, lines[i].as_str());
        proof {
            let seen = texts(lines@).take(i + 1);
            assert(seen.drop_last() =~= texts(lines@).take(i as int));
            assert(seen.last() == lines@[i as int]@);
        }
        let ghost before = out@;
        match found {
            Some(text) => {
                out.push(text);
                proof {
                    assert(texts(out@) =~= texts(before).push(text@));
                }
            },
            None => {},
        }
        i = i + 1;
    }
    proof {
        assert(texts(lines@).take(i as int) =~= texts(lines@));
    }
    out
}

/// A line in which the pattern has no match yields nothing.
pub proof fn law_no_match_yields_nothing(pattern: Seq<char>, line: Seq<char>)
    requires
        match_spans(pattern, line).len() == 0,
    ensures
        rendering(pattern, line) is None,
        renderings(pattern, seq![line]) == Seq::<Seq<char>>::empty(),
{
    assert(seq![line].drop_last() =~= Seq::<Seq<char>>::empty());
    assert(seq![line].last() == line);
    reveal_with_fuel(renderings, 2);
}

/// Matching a line without a match again gives the same answer every time:
/// whatever two runs of the matcher return for it, both are nothing.
pub proof fn law_no_match_is_stable(
    pattern: Seq<char>,
    line: Seq<char>,
    first: Option<Seq<char>>,
    second: Option<Seq<char>>,
)
    requires
        match_spans(pattern, line).len() == 0,
        first == rendering(pattern, line),
        second == rendering(pattern, line),
    ensures
        first is None,
        second is None,
        first == second,
{
}

/// What is shown for lines put one after the other is what is shown for the
/// first lines, followed by what is shown for the others.
proof fn lemma_renderings_concat(
    pattern: Seq<char>,
    first: Seq<Seq<char>>,
    second: Seq<Seq<char>>,
)
    ensures
        renderings(pattern, first + second) == renderings(pattern, first) + renderings(
            pattern,
            second,
        ),
    decreases second.len(),
{
    if second.len() == 0 {
        assert(first + second =~= first);
        assert(renderings(pattern, first) + renderings(pattern, second) =~= renderings(
            pattern,
            first,
        ));
    } else {
        assert((first + second).drop_last() =~= first + second.drop_last());
        assert((first + second).last() == second.last());
        lemma_renderings_concat(pattern, first, second.drop_last());
        assert(renderings(pattern, first + second) =~= renderings(pattern, first) + renderings(
            pattern,
            second,
        ));
    }
}

/// Matching chunk by chunk shows the same as decoding all the chunks first
/// and matching the lines afterwards.
pub proof fn law_chunks_one_by_one(pattern: Seq<char>, chunks: Seq<Seq<u8>>)
    ensures
        chunk_renderings(pattern, chunks) == renderings(pattern, chunk_lines(chunks)),
    decreases chunks.len(),
{
    if chunks.len() > 0 {
        let rest = chunk_lines(chunks.drop_first());
        law_chunks_one_by_one(pattern, chunks.drop_first());
        match line_of_chunk(chunks[0]) {
            Some(line) => {
                lemma_renderings_concat(pattern, seq![line], rest);
                assert(seq![line].drop_last() =~= Seq::<Seq<char>>::empty());
                assert(seq![line].last() == line);
                reveal_with_fuel(renderings, 2);
                assert(renderings(pattern, seq![line]) =~= match rendering(pattern, line) {
                    Some(shown) => seq![shown],
                    None => seq![],
                });
            },
            None => {},
        }
    }
}

/// The same text gives the same output, line for line and in the same order,
/// whether it is handed over as text, read as the bytes of a file, or taken
/// chunk by chunk from a stream.
pub proof fn law_sources_agree(pattern: Seq<char>, text: Seq<char>)
    ensures
        renderings(pattern, byte_lines(encode_utf8(text))) == renderings(
            pattern,
            text_lines(text),
        ),
        chunk_renderings(pattern, chunks(encode_utf8(text), LINE_FEED)) == renderings(
            pattern,
            text_lines(text),
        ),
{
    law_bytes_and_text_agree(text);
    law_chunks_one_by_one(pattern, chunks(encode_utf8(text), LINE_FEED));
}

} // verus!
