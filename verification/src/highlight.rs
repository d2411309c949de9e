//! Rendering a line with its matches wrapped in colour markers.

use crate::pattern::{in_order, spans_fit, Span};
use crate::text::{lemma_boundary_in_tail, lemma_encode_concat};
use vstd::prelude::*;
use vstd::string::StringExecFns;
use vstd::utf8::*;

verus! {

/// Written before every match: switches the terminal to red.
pub const HIGHLIGHT_START: &'static str = "\x1b[31m";

/// Written after every match: restores the terminal's colours.
pub const HIGHLIGHT_END: &'static str = "\x1b[0m";

/// The bytes of `HIGHLIGHT_START`.
pub open spec fn start_marker() -> Seq<u8> {
    encode_utf8(HIGHLIGHT_START@)
}

/// The bytes of `HIGHLIGHT_END`.
pub open spec fn end_marker() -> Seq<u8> {
    encode_utf8(HIGHLIGHT_END@)
}

/// The part of `bytes` from offset `from` on, with `open` put before and
/// `close` after every span; bytes outside the spans and inside them stay as
/// they are.
pub open spec fn wrapped(
    bytes: Seq<u8>,
    spans: Seq<Span>,
    from: int,
    open: Seq<u8>,
    close: Seq<u8>,
) -> Seq<u8>
    decreases spans.len(),
{
    if spans.len() == 0 {
        bytes.subrange(from, bytes.len() as int)
    } else {
        let first = spans[0];
        bytes.subrange(from, first.start as int) + open + bytes.subrange(
            first.start as int,
            first.end as int,
        ) + close + wrapped(bytes, spans.drop_first(), first.end as int, open, close)
    }
}

/// The encoding of a line with every span wrapped in the colour markers.
pub open spec fn highlighted(bytes: Seq<u8>, spans: Seq<Span>) -> Seq<u8> {
    wrapped(bytes, spans, 0, start_marker(), end_marker())
}

/// How many of the spans start at or before the offset `at`.
pub open spec fn begun(spans: Seq<Span>, at: int) -> int
    decreases spans.len(),
{
    if spans.len() == 0 {
        0
    } else {
        (if spans[0].start <= at {
            1int
        } else {
            0int
        }) + begun(spans.drop_first(), at)
    }
}

/// How many of the spans end at or before the offset `at`.
pub open spec fn ended(spans: Seq<Span>, at: int) -> int
    decreases spans.len(),
{
    if spans.len() == 0 {
        0
    } else {
        (if spans[0].end <= at {
            1int
        } else {
            0int
        }) + ended(spans.drop_first(), at)
    }
}

/// Where the byte at offset `at` of a line stands in the rendered line: moved
/// to the right by the markers that were put in before it.
pub open spec fn place(spans: Seq<Span>, at: int, open_len: int, close_len: int) -> int {
    at + begun(spans, at) * open_len + ended(spans, at) * close_len
}

/// Tells whether `spans` can be highlighted in `line`: whether they lie in
/// the line one after the other without overlap, with every offset between
/// two characters.
pub fn fits(line: &str, spans: &[Span]) -> (ok: bool)
    ensures
        ok == spans_fit(encode_utf8(line@), spans@),
{
    let ghost bytes = encode_utf8(line@);
    let len = line.as_bytes().len();
    let mut last: usize = 0;
    let mut k: usize = 0;
    while k < spans.len()
        invariant
            bytes == encode_utf8(line@),
            len == bytes.len(),
            k <= spans.len(),
            k == 0 ==> last == 0,
            k > 0 ==> last == spans[k - 1].end,
            forall|i: int| 0 <= i < k ==> (#[trigger] spans[i]).end <= last,
            spans_fit(bytes, spans@.take(k as int)),
        decreases spans.len() - k,
    {
        let span = spans[k];
        if !(last <= span.start && span.start <= span.end && span.end <= len
            && line.is_char_boundary(span.start) && line.is_char_boundary(span.end)) {
            proof {
                if spans_fit(bytes, spans@) {
                    assert(spans@[k as int] == span);
                    if k > 0 {
                        assert(spans@[k - 1].end <= spans@[k as int].start);
                    }
                }
            }
            return false;
        }
        proof {
            let seen = spans@.take(k as int);
            let more = spans@.take(k + 1);
            assert forall|i: int| 0 <= i < more.len() implies (#[trigger] more[i]).start
                <= more[i].end <= bytes.len() && is_char_boundary(bytes, more[i].start as int)
                && is_char_boundary(bytes, more[i].end as int) by {
                if i < k {
                    assert(more[i] == seen[i]);
                }
            }
            assert forall|i: int, j: int| 0 <= i < j < more.len() implies (#[trigger] more[i]).end
                <= (#[trigger] more[j]).start by {
                if j < k {
                    assert(more[i] == seen[i]);
                    assert(more[j] == seen[j]);
                } else {
                    assert(more[i] == spans[i]);
                }
            }
        }
        last = span.end;
        k = k + 1;
    }
    proof {
        assert(spans@.take(k as int) =~= spans@);
    }
    true
}

/// Renders `line` with each of `spans` wrapped in `HIGHLIGHT_START` and
/// `HIGHLIGHT_END`. The spans are byte offsets into `line`.
pub fn highlight(line: &str, spans: &[Span]) -> (out: String)
    requires
        spans_fit(encode_utf8(line@), spans@),
    ensures
        encode_utf8(out@) == highlighted(encode_utf8(line@), spans@),
        out@ == decode_utf8(highlighted(encode_utf8(line@), spans@)),
{
    let ghost bytes = encode_utf8(line@);
    let ghost goal = highlighted(bytes, spans@);
    let mut out = String::new();
    let mut rest: &str = line;
    let mut done: usize = 0;
    let mut k: usize = 0;
    proof {
        encode_utf8_valid_utf8(line@);
        assert(bytes.subrange(0, bytes.len() as int) =~= bytes);
        assert(spans@.skip(0) =~= spans@);
        assert(encode_utf8(out@) + goal =~= goal);
    }
    while k < spans.len()
        invariant
            valid_utf8(bytes),
            spans_fit(bytes, spans@),
            k <= spans.len(),
            done <= bytes.len(),
            forall|i: int| k <= i < spans.len() ==> done <= (#[trigger] spans[i]).start,
            encode_utf8(rest@) == bytes.subrange(done as int, bytes.len() as int),
            encode_utf8(out@) + wrapped(
                bytes,
                spans@.skip(k as int),
                done as int,
                start_marker(),
                end_marker(),
            ) == goal,
        decreases spans.len() - k,
    {
        let span = spans[k];
        let ghost before_out = encode_utf8(out@);
        let (before, tail) = cut(rest, Ghost(bytes), done, span.start);
        let (inside, after) = cut(tail, Ghost(bytes), span.start, span.end);
        put(&mut out, before);
        put(&mut out, HIGHLIGHT_START);
        put(&mut out, inside);
        put(&mut out, HIGHLIGHT_END);
        proof {
            lemma_wrapped_step(
                bytes,
                spans@,
                k as int,
                done as int,
                start_marker(),
                end_marker(),
            );
            let next = wrapped(
                bytes,
                spans@.skip(k + 1),
                span.end as int,
                start_marker(),
                end_marker(),
            );
            assert(encode_utf8(out@) + next =~= before_out + (bytes.subrange(
                done as int,
                span.start as int,
            ) + start_marker() + bytes.subrange(span.start as int, span.end as int)
                + end_marker() + next));
        }
        rest = after;
        done = span.end;
        k = k + 1;
    }
    put(&mut out, rest);
    proof {
        assert(spans@.skip(k as int).len() == 0);
        encode_utf8_decode_utf8(out@);
    }
    out
}

/// Cuts `rest`, the tail of a line from byte offset `done` on, at the byte
/// offset `upto` of the line.
fn cut<'a>(rest: &'a str, Ghost(bytes): Ghost<Seq<u8>>, done: usize, upto: usize) -> (parts: (
    &'a str,
    &'a str,
))
    requires
        valid_utf8(bytes),
        done <= upto <= bytes.len(),
        encode_utf8(rest@) == bytes.subrange(done as int, bytes.len() as int),
        is_char_boundary(bytes, upto as int),
    ensures
        encode_utf8(parts.0@) == bytes.subrange(done as int, upto as int),
        encode_utf8(parts.1@) == bytes.subrange(upto as int, bytes.len() as int),
{
    proof {
        encode_utf8_valid_utf8(rest@);
        lemma_boundary_in_tail(bytes, done as int, upto as int);
    }
    let parts = rest.split_at(upto - done);
    proof {
        assert(encode_utf8(parts.0@) =~= bytes.subrange(done as int, upto as int));
        assert(encode_utf8(parts.1@) =~= bytes.subrange(upto as int, bytes.len() as int));
    }
    parts
}

/// Appends `piece` to `out`.
fn put(out: &mut String, piece: &str)
    ensures
        final(out)@ == old(out)@ + piece@,
        encode_utf8(final(out)@) == encode_utf8(old(out)@) + encode_utf8(piece@),
{
    proof {
        lemma_encode_concat(out@, piece@);
    }
    out.append(piece);
}

/// The markers are the escape sequences `ESC [ 3 1 m` and `ESC [ 0 m`.
pub proof fn law_marker_bytes()
    ensures
        start_marker() == seq![0x1bu8, 0x5bu8, 0x33u8, 0x31u8, 0x6du8],
        end_marker() == seq![0x1bu8, 0x5bu8, 0x30u8, 0x6du8],
{
    reveal_strlit("\x1b[31m");
    reveal_strlit("\x1b[0m");
    is_ascii_chars_encode_utf8(HIGHLIGHT_START@);
    is_ascii_chars_encode_utf8(HIGHLIGHT_END@);
    assert(start_marker() =~= seq![0x1bu8, 0x5bu8, 0x33u8, 0x31u8, 0x6du8]);
    assert(end_marker() =~= seq![0x1bu8, 0x5bu8, 0x30u8, 0x6du8]);
}

/// Highlighting only inserts: taking the markers away gives back the line,
/// byte for byte, and the rendered line is longer than the line by one pair
/// of markers for every match.
pub proof fn law_markers_only_insert(bytes: Seq<u8>, spans: Seq<Span>)
    requires
        spans_fit(bytes, spans),
    ensures
        wrapped(bytes, spans, 0, Seq::empty(), Seq::empty()) == bytes,
        highlighted(bytes, spans).len() == bytes.len() + spans.len() * (start_marker().len()
            + end_marker().len()),
{
    lemma_wrapped_plain(bytes, spans, 0);
    lemma_wrapped_len(bytes, spans, 0, start_marker(), end_marker());
    assert(bytes.subrange(0, bytes.len() as int) =~= bytes);
}

/// Every match stands in the rendered line between its own pair of markers:
/// the start marker directly before it, the end marker directly after it,
/// and before them the pairs of the matches to its left.
pub proof fn law_markers_wrap_each_span(bytes: Seq<u8>, spans: Seq<Span>, k: int)
    requires
        spans_fit(bytes, spans),
        0 <= k < spans.len(),
    ensures
        ({
            let shown = highlighted(bytes, spans);
            let open = start_marker().len();
            let close = end_marker().len();
            let at = spans[k].start + k * (open + close);
            let len = spans[k].end - spans[k].start;
            &&& at + open + len + close <= shown.len()
            &&& shown.subrange(at, at + open) == start_marker()
            &&& shown.subrange(at + open, at + open + len) == bytes.subrange(
                spans[k].start as int,
                spans[k].end as int,
            )
            &&& shown.subrange(at + open + len, at + open + len + close) == end_marker()
        }),
{
    lemma_wrapped_span(bytes, spans, 0, k, start_marker(), end_marker());
}

/// Every byte of the line is in the rendered line, unchanged, moved to the
/// right by exactly the markers put in before it: one start marker for every
/// match that begins at or before the byte, one end marker for every match
/// that ends at or before it.
pub proof fn law_bytes_keep_place(bytes: Seq<u8>, spans: Seq<Span>, at: int)
    requires
        spans_fit(bytes, spans),
        0 <= at < bytes.len(),
    ensures
        0 <= place(spans, at, start_marker().len() as int, end_marker().len() as int)
            < highlighted(bytes, spans).len(),
        highlighted(bytes, spans)[place(
            spans,
            at,
            start_marker().len() as int,
            end_marker().len() as int,
        )] == bytes[at],
{
    lemma_wrapped_place(bytes, spans, 0, at, start_marker(), end_marker());
}

/// The bytes of the line keep their order in the rendered line.
pub proof fn law_bytes_keep_order(bytes: Seq<u8>, spans: Seq<Span>, a: int, b: int)
    requires
        spans_fit(bytes, spans),
        0 <= a < b < bytes.len(),
    ensures
        place(spans, a, start_marker().len() as int, end_marker().len() as int) < place(
            spans,
            b,
            start_marker().len() as int,
            end_marker().len() as int,
        ),
{
    let ol = start_marker().len() as int;
    let cl = end_marker().len() as int;
    lemma_counts_grow(spans, a, b);
    assert(begun(spans, a) * ol <= begun(spans, b) * ol) by (nonlinear_arith)
        requires
            begun(spans, a) <= begun(spans, b),
            0 <= ol,
    ;
    assert(ended(spans, a) * cl <= ended(spans, b) * cl) by (nonlinear_arith)
        requires
            ended(spans, a) <= ended(spans, b),
            0 <= cl,
    ;
}

/// Unfolds `wrapped` at the span with index `k`.
proof fn lemma_wrapped_step(
    bytes: Seq<u8>,
    spans: Seq<Span>,
    k: int,
    from: int,
    open: Seq<u8>,
    close: Seq<u8>,
)
    requires
        0 <= k < spans.len(),
    ensures
        wrapped(bytes, spans.skip(k), from, open, close) == bytes.subrange(
            from,
            spans[k].start as int,
        ) + open + bytes.subrange(spans[k].start as int, spans[k].end as int) + close + wrapped(
            bytes,
            spans.skip(k + 1),
            spans[k].end as int,
            open,
            close,
        ),
{
    let pending = spans.skip(k);
    assert(pending[0] == spans[k]);
    assert(pending.drop_first() =~= spans.skip(k + 1));
}

/// After the first of some ordered spans, the others are in order too.
proof fn lemma_in_order_rest(len: int, spans: Seq<Span>, from: int)
    requires
        in_order(len, spans, from),
        spans.len() > 0,
    ensures
        in_order(len, spans.drop_first(), spans[0].end as int),
{
    let rest = spans.drop_first();
    assert forall|i: int| 0 <= i < rest.len() implies spans[0].end <= (#[trigger] rest[i]).start
        <= rest[i].end <= len by {
        assert(rest[i] == spans[i + 1]);
    }
    assert forall|i: int, j: int| 0 <= i < j < rest.len() implies (#[trigger] rest[i]).end <= (
    #[trigger] rest[j]).start by {
        assert(rest[i] == spans[i + 1]);
        assert(rest[j] == spans[j + 1]);
    }
}

/// No span has begun or ended before the first of them starts.
proof fn lemma_none_before(len: int, spans: Seq<Span>, from: int, at: int)
    requires
        in_order(len, spans, from),
        forall|i: int| 0 <= i < spans.len() ==> at < (#[trigger] spans[i]).start,
    ensures
        begun(spans, at) == 0,
        ended(spans, at) == 0,
    decreases spans.len(),
{
    if spans.len() > 0 {
        let rest = spans.drop_first();
        lemma_in_order_rest(len, spans, from);
        assert forall|i: int| 0 <= i < rest.len() implies at < (#[trigger] rest[i]).start by {
            assert(rest[i] == spans[i + 1]);
        }
        lemma_none_before(len, rest, spans[0].end as int, at);
    }
}

/// The counts of spans begun and ended grow with the offset, and no more
/// spans have ended than have begun.
proof fn lemma_counts_grow(spans: Seq<Span>, a: int, b: int)
    requires
        a <= b,
        forall|i: int| 0 <= i < spans.len() ==> (#[trigger] spans[i]).start <= spans[i].end,
    ensures
        0 <= begun(spans, a) <= begun(spans, b) <= spans.len(),
        0 <= ended(spans, a) <= ended(spans, b) <= spans.len(),
        ended(spans, a) <= begun(spans, a),
    decreases spans.len(),
{
    if spans.len() > 0 {
        let rest = spans.drop_first();
        assert forall|i: int| 0 <= i < rest.len() implies (#[trigger] rest[i]).start
            <= rest[i].end by {
            assert(rest[i] == spans[i + 1]);
        }
        lemma_counts_grow(rest, a, b);
    }
}

/// The length of a wrapped line: what is left of the line, and one pair of
/// markers for every span.
proof fn lemma_wrapped_len(
    bytes: Seq<u8>,
    spans: Seq<Span>,
    from: int,
    open: Seq<u8>,
    close: Seq<u8>,
)
    requires
        in_order(bytes.len() as int, spans, from),
    ensures
        wrapped(bytes, spans, from, open, close).len() == bytes.len() - from + spans.len() * (
        open.len() + close.len()),
    decreases spans.len(),
{
    if spans.len() > 0 {
        let rest = spans.drop_first();
        lemma_in_order_rest(bytes.len() as int, spans, from);
        lemma_wrapped_len(bytes, rest, spans[0].end as int, open, close);
        assert(spans.len() * (open.len() + close.len()) == rest.len() * (open.len()
            + close.len()) + (open.len() + close.len())) by (nonlinear_arith)
            requires
                spans.len() == rest.len() + 1,
        ;
    }
}

/// With markers of no bytes, wrapping changes nothing.
proof fn lemma_wrapped_plain(bytes: Seq<u8>, spans: Seq<Span>, from: int)
    requires
        in_order(bytes.len() as int, spans, from),
    ensures
        wrapped(bytes, spans, from, Seq::empty(), Seq::empty()) == bytes.subrange(
            from,
            bytes.len() as int,
        ),
    decreases spans.len(),
{
    if spans.len() > 0 {
        let first = spans[0];
        lemma_in_order_rest(bytes.len() as int, spans, from);
        lemma_wrapped_plain(bytes, spans.drop_first(), first.end as int);
        assert(wrapped(bytes, spans, from, Seq::empty(), Seq::empty()) =~= bytes.subrange(
            from,
            bytes.len() as int,
        ));
    }
}

/// The byte at offset `at` of the line stands at its place in the wrapped
/// line.
proof fn lemma_wrapped_place(
    bytes: Seq<u8>,
    spans: Seq<Span>,
    from: int,
    at: int,
    open: Seq<u8>,
    close: Seq<u8>,
)
    requires
        in_order(bytes.len() as int, spans, from),
        from <= at < bytes.len(),
    ensures
        0 <= place(spans, at, open.len() as int, close.len() as int) - from < wrapped(
            bytes,
            spans,
            from,
            open,
            close,
        ).len(),
        wrapped(bytes, spans, from, open, close)[place(
            spans,
            at,
            open.len() as int,
            close.len() as int,
        ) - from] == bytes[at],
    decreases spans.len(),
{
    let ol = open.len() as int;
    let cl = close.len() as int;
    let b = begun(spans, at);
    let e = ended(spans, at);
    let whole = wrapped(bytes, spans, from, open, close);
    lemma_wrapped_len(bytes, spans, from, open, close);
    if spans.len() > 0 {
        let first = spans[0];
        let rest = spans.drop_first();
        let later = wrapped(bytes, rest, first.end as int, open, close);
        let before = bytes.subrange(from, first.start as int);
        let inside = bytes.subrange(first.start as int, first.end as int);
        lemma_in_order_rest(bytes.len() as int, spans, from);
        lemma_wrapped_len(bytes, rest, first.end as int, open, close);
        let upto_open = before + open;
        let upto_inside = upto_open + inside;
        let upto_close = upto_inside + close;
        assert(whole == upto_close + later);
        assert(upto_open.len() == first.start - from + ol);
        assert(upto_inside.len() == first.end - from + ol);
        assert(upto_close.len() == first.end - from + ol + cl);
        if at < first.end {
            assert forall|i: int| 0 <= i < rest.len() implies at < (#[trigger] rest[i]).start by {
                assert(rest[i] == spans[i + 1]);
                assert(spans[0].end <= spans[i + 1].start);
            }
            lemma_none_before(bytes.len() as int, rest, first.end as int, at);
            assert(e == 0);
            assert(e * cl == 0) by (nonlinear_arith)
                requires
                    e == 0,
            ;
            if at < first.start {
                assert(b == 0);
                assert(b * ol == 0) by (nonlinear_arith)
                    requires
                        b == 0,
                ;
                let idx = at - from;
                assert(place(spans, at, ol, cl) - from == idx);
                assert(upto_close[idx] == upto_inside[idx]);
                assert(upto_inside[idx] == upto_open[idx]);
                assert(upto_open[idx] == before[idx]);
                assert(whole[idx] == bytes[at]);
            } else {
                assert(b == 1);
                assert(b * ol == ol) by (nonlinear_arith)
                    requires
                        b == 1,
                ;
                let idx = at - from + ol;
                assert(place(spans, at, ol, cl) - from == idx);
                assert(upto_close[idx] == upto_inside[idx]);
                assert(upto_inside[idx] == inside[at - first.start]);
                assert(whole[idx] == bytes[at]);
            }
        } else {
            lemma_wrapped_place(bytes, rest, first.end as int, at, open, close);
            let rb = begun(rest, at);
            let re = ended(rest, at);
            assert(b == 1 + rb);
            assert(e == 1 + re);
            assert(b * ol == ol + rb * ol) by (nonlinear_arith)
                requires
                    b == 1 + rb,
            ;
            assert(e * cl == cl + re * cl) by (nonlinear_arith)
                requires
                    e == 1 + re,
            ;
            let inner = place(rest, at, ol, cl) - first.end;
            let idx = upto_close.len() + inner;
            assert(place(spans, at, ol, cl) - from == idx);
            assert(whole[idx] == later[inner]);
        }
    } else {
        assert(b * ol == 0) by (nonlinear_arith)
            requires
                b == 0,
        ;
        assert(e * cl == 0) by (nonlinear_arith)
            requires
                e == 0,
        ;
        assert(whole[at - from] == bytes[at]);
    }
}

/// Where the start marker of the span with index `k` stands in the wrapped
/// line from `from` on, and what follows it there.
proof fn lemma_wrapped_span(
    bytes: Seq<u8>,
    spans: Seq<Span>,
    from: int,
    k: int,
    open: Seq<u8>,
    close: Seq<u8>,
)
    requires
        in_order(bytes.len() as int, spans, from),
        0 <= k < spans.len(),
    ensures
        ({
            let whole = wrapped(bytes, spans, from, open, close);
            let at = spans[k].start - from + k * (open.len() + close.len());
            let len = spans[k].end - spans[k].start;
            &&& 0 <= at
            &&& at + open.len() + len + close.len() <= whole.len()
            &&& whole.subrange(at, at + open.len()) == open
            &&& whole.subrange(at + open.len(), at + open.len() + len) == bytes.subrange(
                spans[k].start as int,
                spans[k].end as int,
            )
            &&& whole.subrange(at + open.len() + len, at + open.len() + len + close.len())
                == close
        }),
    decreases k,
{
    let ol = open.len() as int;
    let cl = close.len() as int;
    let whole = wrapped(bytes, spans, from, open, close);
    let first = spans[0];
    let rest = spans.drop_first();
    let later = wrapped(bytes, rest, first.end as int, open, close);
    let before = bytes.subrange(from, first.start as int);
    let inside = bytes.subrange(first.start as int, first.end as int);
    let upto_open = before + open;
    let upto_inside = upto_open + inside;
    let upto_close = upto_inside + close;
    lemma_in_order_rest(bytes.len() as int, spans, from);
    lemma_wrapped_len(bytes, spans, from, open, close);
    lemma_wrapped_len(bytes, rest, first.end as int, open, close);
    assert(whole == upto_close + later);
    assert(upto_open.len() == first.start - from + ol);
    assert(upto_inside.len() == first.end - from + ol);
    assert(upto_close.len() == first.end - from + ol + cl);
    if k == 0 {
        let at = first.start - from;
        let len = first.end - first.start;
        assert(k * (ol + cl) == 0) by (nonlinear_arith)
            requires
                k == 0,
        ;
        assert(0 <= spans.len() * (ol + cl)) by (nonlinear_arith)
            requires
                0 <= spans.len(),
                0 <= ol + cl,
        ;
        assert(whole.subrange(at, at + ol) =~= open);
        assert(whole.subrange(at + ol, at + ol + len) =~= inside);
        assert(whole.subrange(at + ol + len, at + ol + len + cl) =~= close);
    } else {
        lemma_wrapped_span(bytes, rest, first.end as int, k - 1, open, close);
        assert(rest[k - 1] == spans[k]);
        let inner = spans[k].start - first.end + (k - 1) * (ol + cl);
        let at = spans[k].start - from + k * (ol + cl);
        let len = spans[k].end - spans[k].start;
        assert(k * (ol + cl) == (k - 1) * (ol + cl) + (ol + cl)) by (nonlinear_arith);
        assert(at == upto_close.len() + inner);
        assert(whole.subrange(at, at + ol) =~= later.subrange(inner, inner + ol));
        assert(whole.subrange(at + ol, at + ol + len) =~= later.subrange(
            inner + ol,
            inner + ol + len,
        ));
        assert(whole.subrange(at + ol + len, at + ol + len + cl) =~= later.subrange(
            inner + ol + len,
            inner + ol + len + cl,
        ));
    }
}

} // verus!
