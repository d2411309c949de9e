//! Cutting text and raw bytes into lines.
//!
//! A line ends with a line feed; a carriage return directly before that line
//! feed belongs to the line ending too. The last line needs no line ending. A
//! carriage return that no line feed follows is part of its line.

use crate::text::{
    lemma_encode_concat, lemma_encode_last, lemma_encode_single, lemma_scalar_bytes, opt_text,
    text_of, texts,
};
use vstd::prelude::*;
use vstd::slice::slice_subrange;
use vstd::utf8::*;

verus! {

/// The byte that ends a line.
pub const LINE_FEED: u8 = 0x0a;

/// The byte that may stand before the line feed of a line ending.
pub const CARRIAGE_RETURN: u8 = 0x0d;

/// The length of the first chunk of `s`: up to and including the first `stop`,
/// or all of `s` if it holds none.
pub open spec fn chunk_len<T>(s: Seq<T>, stop: T) -> int
    decreases s.len(),
{
    if s.len() == 0 {
        0
    } else if s[0] == stop {
        1
    } else {
        1 + chunk_len(s.drop_first(), stop)
    }
}

/// `s` cut after every `stop`.
pub open spec fn chunks<T>(s: Seq<T>, stop: T) -> Seq<Seq<T>>
    decreases s.len(),
    via chunks_decreases::<T>
{
    if s.len() == 0 {
        seq![]
    } else {
        let n = chunk_len(s, stop);
        seq![s.take(n)] + chunks(s.skip(n), stop)
    }
}

#[via_fn]
proof fn chunks_decreases<T>(s: Seq<T>, stop: T) {
    lemma_chunk_len_bounds(s, stop);
}

/// A chunk without its line ending: without a final `feed`, and then without
/// a `ret` that stood before that `feed`.
pub open spec fn strip_eol<T>(chunk: Seq<T>, feed: T, ret: T) -> Seq<T> {
    if chunk.len() > 0 && chunk.last() == feed {
        let body = chunk.drop_last();
        if body.len() > 0 && body.last() == ret {
            body.drop_last()
        } else {
            body
        }
    } else {
        chunk
    }
}

/// The lines of a text.
pub open spec fn text_lines(text: Seq<char>) -> Seq<Seq<char>> {
    chunks(text, '\n').map_values(|chunk: Seq<char>| strip_eol(chunk, '\n', '\r'))
}

/// The line that a chunk of raw bytes holds: the chunk without its line
/// ending, decoded; nothing if those bytes are not well-formed UTF-8.
pub open spec fn line_of_chunk(chunk: Seq<u8>) -> Option<Seq<char>> {
    let body = strip_eol(chunk, LINE_FEED, CARRIAGE_RETURN);
    if valid_utf8(body) {
        Some(decode_utf8(body))
    } else {
        None
    }
}

/// The lines that a list of chunks holds, in order; a chunk that cannot be
/// decoded contributes no line.
pub open spec fn chunk_lines(chunks: Seq<Seq<u8>>) -> Seq<Seq<char>>
    decreases chunks.len(),
{
    if chunks.len() == 0 {
        seq![]
    } else {
        let rest = chunk_lines(chunks.drop_first());
        match line_of_chunk(chunks[0]) {
            Some(line) => seq![line] + rest,
            None => rest,
        }
    }
}

/// The lines of the raw content of a file or stream.
pub open spec fn byte_lines(data: Seq<u8>) -> Seq<Seq<char>> {
    chunk_lines(chunks(data, LINE_FEED))
}

/// Takes the line out of one chunk of raw bytes, as a reader hands them out
/// that stops after every line feed: removes the line ending and decodes the
/// rest. Yields nothing if the rest is not well-formed UTF-8.
pub fn decode_line(chunk: &[u8]) -> (line: Option<String>)
    ensures
        opt_text(line) == line_of_chunk(chunk@),
{
    let mut end: usize = chunk.len();
    if end > 0 && chunk[end - 1] == LINE_FEED {
        end = end - 1;
        if end > 0 && chunk[end - 1] == CARRIAGE_RETURN {
            end = end - 1;
        }
    }
    let body = slice_subrange(chunk, 0, end);
    proof {
        assert(body@ =~= strip_eol(chunk@, LINE_FEED, CARRIAGE_RETURN));
    }
    match text_of(body) {
        Some(text) => {
            proof {
                encode_utf8_decode_utf8(text@);
            }
            Some(text.to_owned())
        },
        None => None,
    }
}

/// Cuts the raw content of a file or stream into lines, in order. A line
/// whose bytes are not well-formed UTF-8 is left out; the lines after it are
/// not affected.
pub fn lines_of_bytes(data: &[u8]) -> (lines: Vec<String>)
    ensures
        texts(lines@) == byte_lines(data@),
{
    let mut lines: Vec<String> = Vec::new();
    let mut start: usize = 0;
    proof {
        assert(data@.skip(0) =~= data@);
        assert(texts(lines@) + byte_lines(data@) =~= byte_lines(data@));
    }
    while start < data.len()
        invariant
            start <= data.len(),
            texts(lines@) + byte_lines(data@.skip(start as int)) == byte_lines(data@),
        decreases data.len() - start,
    {
        let mut end: usize = start;
        while end < data.len() && data[end] != LINE_FEED
            invariant
                start <= end <= data.len(),
                forall|i: int| start <= i < end ==> data@[i] != LINE_FEED,
            decreases data.len() - end,
        {
            end = end + 1;
        }
        if end < data.len() {
            end = end + 1;
        }
        let ghost pending = data@.skip(start as int);
        proof {
            assert forall|i: int| 0 <= i < end - start - 1 implies pending[i] != LINE_FEED by {
                assert(pending[i] == data@[start + i]);
            }
            lemma_chunk_len_is(pending, LINE_FEED, end - start);
            lemma_byte_lines_step(pending);
            assert(pending.take(end - start) =~= data@.subrange(start as int, end as int));
            assert(pending.skip(end - start) =~= data@.skip(end as int));
        }
        let found = decode_line(slice_subrange(data, start, end));
        let ghost before = lines@;
        match found {
            Some(line) => {
                lines.push(line);
                proof {
                    assert(texts(lines@) =~= texts(before) + seq![line@]);
                }
            },
            None => {},
        }
        proof {
            assert(texts(lines@) + byte_lines(data@.skip(end as int)) =~= texts(before)
                + byte_lines(pending));
        }
        start = end;
    }
    proof {
        assert(data@.skip(start as int).len() == 0);
        assert(texts(lines@) + byte_lines(data@.skip(start as int)) =~= texts(lines@));
    }
    lines
}

/// Cuts a text into its lines, in order.
pub fn lines_of_text(text: &str) -> (lines: Vec<String>)
    ensures
        texts(lines@) == text_lines(text@),
{
    proof {
        law_bytes_and_text_agree(text@);
    }
    lines_of_bytes(text.as_bytes())
}

/// Text gives the same lines whether it arrives as text or as the bytes of
/// its UTF-8 encoding, as a file or a stream delivers it.
pub proof fn law_bytes_and_text_agree(text: Seq<char>)
    ensures
        byte_lines(encode_utf8(text)) == text_lines(text),
    decreases text.len(),
{
    let strip = |chunk: Seq<char>| strip_eol(chunk, '\n', '\r');
    if text.len() == 0 {
        assert(text_lines(text) =~= Seq::<Seq<char>>::empty());
    } else {
        let data = encode_utf8(text);
        let n = chunk_len(text, '\n');
        let m = chunk_len(data, LINE_FEED);
        let head = text.take(n);
        let tail = text.skip(n);
        lemma_chunk_len_bounds(text, '\n');
        lemma_first_chunk_encoded(text);
        assert(text =~= head + tail);
        lemma_encode_concat(head, tail);
        assert(data.take(m) =~= encode_utf8(head));
        assert(data.skip(m) =~= encode_utf8(tail));
        lemma_scalar_bytes(text[0]);
        assert(data.len() > 0);
        lemma_byte_lines_step(data);
        lemma_strip_eol_encoded(head);
        encode_utf8_valid_utf8(strip(head));
        encode_utf8_decode_utf8(strip(head));
        law_bytes_and_text_agree(tail);
        assert(chunks(text, '\n') == seq![head] + chunks(tail, '\n'));
        assert(text_lines(text) =~= seq![strip(head)] + text_lines(tail));
    }
}

/// Cutting loses nothing and keeps the order: put together again, the chunks
/// are the sequence. No chunk is empty, `stop` stands nowhere in a chunk but
/// at its end, and every chunk but the last ends with `stop`.
pub proof fn law_chunks_cover<T>(s: Seq<T>, stop: T)
    ensures
        chunks(s, stop).flatten() == s,
        forall|k: int|
            0 <= k < chunks(s, stop).len() ==> {
                let chunk = #[trigger] chunks(s, stop)[k];
                &&& chunk.len() > 0
                &&& forall|i: int| 0 <= i < chunk.len() - 1 ==> chunk[i] != stop
                &&& k < chunks(s, stop).len() - 1 ==> chunk.last() == stop
            },
    decreases s.len(),
{
    let all = chunks(s, stop);
    if s.len() == 0 {
        assert(all.flatten() =~= s);
    } else {
        let n = chunk_len(s, stop);
        let head = s.take(n);
        let later = chunks(s.skip(n), stop);
        lemma_chunk_len_bounds(s, stop);
        lemma_chunk_len_shape(s, stop);
        law_chunks_cover(s.skip(n), stop);
        assert(all == seq![head] + later);
        assert(all.first() == head);
        assert(all.drop_first() =~= later);
        assert(all.flatten() =~= s);
        assert forall|k: int| 0 <= k < all.len() implies {
            let chunk = #[trigger] all[k];
            &&& chunk.len() > 0
            &&& forall|i: int| 0 <= i < chunk.len() - 1 ==> chunk[i] != stop
            &&& k < all.len() - 1 ==> chunk.last() == stop
        } by {
            if k == 0 {
                assert(all[0] == head);
                if all.len() > 1 {
                    assert(later.len() > 0);
                    assert(s.skip(n).len() > 0);
                    assert(head.last() == s[n - 1]);
                }
            } else {
                assert(all[k] == later[k - 1]);
            }
        }
    }
}

/// No line of a text holds a line feed.
pub proof fn law_lines_hold_no_line_feed(text: Seq<char>)
    ensures
        forall|k: int, i: int|
            0 <= k < text_lines(text).len() && 0 <= i < text_lines(text)[k].len()
                ==> #[trigger] text_lines(text)[k][i] != '\n',
{
    let cut = chunks(text, '\n');
    law_chunks_cover(text, '\n');
    let lines = text_lines(text);
    assert forall|k: int, i: int|
        0 <= k < lines.len() && 0 <= i < lines[k].len() implies #[trigger] lines[k][i]
        != '\n' by {
        let chunk = cut[k];
        let line = strip_eol(chunk, '\n', '\r');
        assert(lines[k] == line);
        assert(line[i] == chunk[i]);
        if chunk.last() != '\n' && i == chunk.len() - 1 {
            assert(chunk[i] == chunk.last());
        }
    }
}

/// The first chunk of a sequence that is not empty is not empty, and lies
/// within the sequence.
proof fn lemma_chunk_len_bounds<T>(s: Seq<T>, stop: T)
    ensures
        0 <= chunk_len(s, stop) <= s.len(),
        s.len() > 0 ==> chunk_len(s, stop) >= 1,
    decreases s.len(),
{
    if s.len() > 0 && s[0] != stop {
        lemma_chunk_len_bounds(s.drop_first(), stop);
    }
}

/// In the first chunk only the last item can be `stop`, and it is `stop`
/// unless the chunk is all of the sequence.
proof fn lemma_chunk_len_shape<T>(s: Seq<T>, stop: T)
    ensures
        forall|i: int| 0 <= i < chunk_len(s, stop) - 1 ==> s[i] != stop,
        chunk_len(s, stop) < s.len() ==> s[chunk_len(s, stop) - 1] == stop,
    decreases s.len(),
{
    if s.len() > 0 && s[0] != stop {
        let rest = s.drop_first();
        lemma_chunk_len_shape(rest, stop);
        lemma_chunk_len_bounds(rest, stop);
        assert forall|i: int| 0 <= i < chunk_len(s, stop) - 1 implies s[i] != stop by {
            if i > 0 {
                assert(s[i] == rest[i - 1]);
            }
        }
        if chunk_len(s, stop) < s.len() {
            assert(s[chunk_len(s, stop) - 1] == rest[chunk_len(rest, stop) - 1]);
        }
    }
}

/// A prefix of `n` items, of which at most the last is `stop`, and which ends
/// with `stop` or with the sequence, is the first chunk.
proof fn lemma_chunk_len_is<T>(s: Seq<T>, stop: T, n: int)
    requires
        1 <= n <= s.len(),
        forall|i: int| 0 <= i < n - 1 ==> s[i] != stop,
        s[n - 1] == stop || n == s.len(),
    ensures
        chunk_len(s, stop) == n,
    decreases n,
{
    if s[0] == stop {
        if n > 1 {
            assert(s[0] != stop);
        }
    } else {
        if n > 1 {
            let rest = s.drop_first();
            assert forall|i: int| 0 <= i < n - 2 implies rest[i] != stop by {
                assert(rest[i] == s[i + 1]);
            }
            lemma_chunk_len_is(rest, stop, n - 1);
        } else {
            assert(s.drop_first().len() == 0);
        }
    }
}

/// Items before the first chunk that hold no `stop` lengthen that chunk.
proof fn lemma_chunk_len_after<T>(head: Seq<T>, tail: Seq<T>, stop: T)
    requires
        forall|i: int| 0 <= i < head.len() ==> head[i] != stop,
    ensures
        chunk_len(head + tail, stop) == head.len() + chunk_len(tail, stop),
    decreases head.len(),
{
    if head.len() == 0 {
        assert(head + tail =~= tail);
    } else {
        assert((head + tail)[0] == head[0]);
        assert((head + tail).drop_first() =~= head.drop_first() + tail);
        assert forall|i: int| 0 <= i < head.drop_first().len() implies head.drop_first()[i]
            != stop by {
            assert(head.drop_first()[i] == head[i + 1]);
        }
        lemma_chunk_len_after(head.drop_first(), tail, stop);
    }
}

/// The lines of `data` are the line of its first chunk, if that chunk holds
/// one, and then the lines of what follows the chunk.
proof fn lemma_byte_lines_step(data: Seq<u8>)
    requires
        data.len() > 0,
    ensures
        byte_lines(data) == (match line_of_chunk(data.take(chunk_len(data, LINE_FEED))) {
            Some(line) => seq![line],
            None => seq![],
        }) + byte_lines(data.skip(chunk_len(data, LINE_FEED))),
{
    let n = chunk_len(data, LINE_FEED);
    let all = chunks(data, LINE_FEED);
    let later = chunks(data.skip(n), LINE_FEED);
    assert(all == seq![data.take(n)] + later);
    assert(all[0] == data.take(n));
    assert(all.drop_first() =~= later);
    assert(byte_lines(data) =~= (match line_of_chunk(data.take(n)) {
        Some(line) => seq![line],
        None => seq![],
    }) + byte_lines(data.skip(n)));
}

/// The first chunk of an encoded text is the encoding of the text's first
/// chunk.
proof fn lemma_first_chunk_encoded(text: Seq<char>)
    ensures
        chunk_len(encode_utf8(text), LINE_FEED) == encode_utf8(
            text.take(chunk_len(text, '\n')),
        ).len(),
    decreases text.len(),
{
    if text.len() == 0 {
        assert(text.take(0) =~= text);
    } else {
        let c = text[0];
        let rest = text.drop_first();
        let first = encode_scalar(c as u32);
        lemma_scalar_bytes(c);
        if c == '\n' {
            assert(encode_utf8(text)[0] == LINE_FEED);
            assert(text.take(1) =~= seq![c]);
            lemma_encode_single(c);
        } else {
            assert forall|i: int| 0 <= i < first.len() implies first[i] != LINE_FEED by {
                if (c as u32) < 0x80 {
                    char_u32_cast(c, c as u32);
                    char_u32_cast('\n', '\n' as u32);
                }
            }
            lemma_chunk_len_after(first, encode_utf8(rest), LINE_FEED);
            lemma_first_chunk_encoded(rest);
            let k = chunk_len(rest, '\n');
            lemma_chunk_len_bounds(rest, '\n');
            assert(text.take(1 + k) =~= seq![c] + rest.take(k));
            assert((seq![c] + rest.take(k)).drop_first() =~= rest.take(k));
        }
    }
}

/// Removing the line ending from an encoded chunk gives the encoding of the
/// chunk without its line ending.
proof fn lemma_strip_eol_encoded(chunk: Seq<char>)
    ensures
        strip_eol(encode_utf8(chunk), LINE_FEED, CARRIAGE_RETURN) == encode_utf8(
            strip_eol(chunk, '\n', '\r'),
        ),
{
    if chunk.len() > 0 {
        let last = chunk.last();
        let body = chunk.drop_last();
        lemma_encode_last(chunk);
        lemma_scalar_bytes(last);
        if last == '\n' {
            assert(encode_utf8(chunk).drop_last() =~= encode_utf8(body));
            if body.len() > 0 {
                let before = body.last();
                lemma_encode_last(body);
                lemma_scalar_bytes(before);
                if before == '\r' {
                    assert(encode_utf8(body).drop_last() =~= encode_utf8(body.drop_last()));
                } else {
                    if (before as u32) < 0x80 {
                        char_u32_cast(before, before as u32);
                        char_u32_cast('\r', '\r' as u32);
                    }
                    assert(encode_utf8(body).last() != CARRIAGE_RETURN);
                }
            }
        } else {
            if (last as u32) < 0x80 {
                char_u32_cast(last, last as u32);
                char_u32_cast('\n', '\n' as u32);
            }
            assert(encode_utf8(chunk).last() != LINE_FEED);
        }
    }
}

} // verus!
