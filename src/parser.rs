//! The streaming parser: chunk intake, the line dispatcher, the indentation
//! engine that keeps the stack of open elements, and the event hand-off.
use vstd::prelude::*;
use std::collections::VecDeque;
use crate::arena::{total_len, ChunkArena, ChunkSlice};
use crate::event::{
    all_handles, attributes_paired, depth, depth_delta, handles_valid, is_value_start,
    lemma_all_handles_weaken, span_of, spans_monotone, valid_in, ParseErrorCode, StreamingEvent,
};
use crate::ring::{EventRing, MAX_RING_CAPACITY};
use crate::scan::{
    chunk_fits, class_key, count_indent, find_brace_close, find_byte, find_quote_end, id_key,
    in_line, inline_directive_at, is_label_byte, is_name_start, is_suffix, opens_element_at,
    read_value, scalar_event, scan_label, scan_name, skip_spaces, slice_of, span_at, AT, BACKTICK, BANG,
    COLON, CR, DOT, DQUOTE, KEYS_LEN, LBRACE, LBRACKET, NEWLINE, PIPE, QUOTE, RBRACE, RBRACKET,
    SEMICOLON, SPACE, TAB,
};
use crate::scan::{count_spaces, handle, label_byte, name_byte, name_start, span_range};
use crate::span::Span;

verus! {

/// What kind of structure an open stack entry is.
#[derive(Debug, Clone, Copy, PartialEq, Eq, Structural)]
pub enum FrameKind {
    /// An element opened by `|name`.
    Element,
    /// A block directive `!ns:name`.
    Directive,
    /// A raw block `!raw:kind`, whose body is not parsed.
    Raw,
}

/// An open entry of the indentation stack.
#[derive(Debug, Clone, Copy, PartialEq, Eq, Structural)]
pub struct Frame {
    pub kind: FrameKind,
    /// The element's or directive's name, where it has one.
    pub name: Option<ChunkSlice>,
    /// Column at which the head begins (where `|` or `!` stands).
    pub base_column: usize,
    /// Column of the first indented content line, once there has been one.
    pub content_base: Option<usize>,
}

/// The indentation rule as applied by a head at column `c`: the entries of
/// `before` left of `c` (its first `k`) stay, those at or right of `c` are
/// gone, and the entry `k` of `after` is the new one at `c` (inline heads
/// later on the line may open more entries right of it).
pub open spec fn opened_at(before: Seq<Frame>, after: Seq<Frame>, c: int, k: int) -> bool {
    &&& 0 <= k <= before.len()
    &&& k < after.len()
    &&& after.take(k) == before.take(k)
    &&& forall|j: int| 0 <= j < k ==> (#[trigger] before[j]).base_column < c
    &&& forall|j: int| k <= j < before.len() ==> (#[trigger] before[j]).base_column >= c
    &&& after[k].base_column == c
}

/// Bases of the stack strictly increase from bottom to top.
pub open spec fn stack_increasing(s: Seq<Frame>) -> bool {
    forall|i: int, j: int| 0 <= i < j < s.len() ==> s[i].base_column < s[j].base_column
}

/// `a` is an initial part of `b`.
pub open spec fn is_prefix<T>(a: Seq<T>, b: Seq<T>) -> bool {
    a.len() <= b.len() && forall|i: int| 0 <= i < a.len() ==> #[trigger] b[i] == a[i]
}

proof fn lemma_depth_push(h: Seq<StreamingEvent>, e: StreamingEvent)
    ensures
        depth(h.push(e)) == depth(h) + depth_delta(e),
{
    assert(h.push(e).drop_last() =~= h);
}

/// The event that closes an open entry.
pub open spec fn end_event(f: Frame, at: Span) -> StreamingEvent {
    match f.kind {
        FrameKind::Element => StreamingEvent::ElementEnd { span: at },
        _ => StreamingEvent::DirectiveEnd { span: at },
    }
}

/// The end events for the entries `popped` (outermost first), innermost first.
pub open spec fn close_events(popped: Seq<Frame>, at: Span) -> Seq<StreamingEvent>
    decreases popped.len(),
{
    if popped.len() == 0 {
        Seq::empty()
    } else {
        close_events(popped.drop_first(), at) + seq![end_event(popped.first(), at)]
    }
}

/// How many entries stay open under the indentation rule for a line at column
/// `col`: pop while the innermost entry begins at or right of `col`.
pub open spec fn keep_count(stack: Seq<Frame>, col: int) -> int
    decreases stack.len(),
{
    if stack.len() == 0 || stack.last().base_column < col {
        stack.len() as int
    } else {
        keep_count(stack.drop_last(), col)
    }
}

/// End of the run of element-name bytes from `i`.
pub open spec fn name_run(data: Seq<u8>, i: int, le: int) -> int
    decreases le - i,
{
    if 0 <= i < le && name_byte(data[i]) {
        name_run(data, i + 1, le)
    } else {
        i
    }
}

/// End of the run of spaces from `i`.
pub open spec fn space_run(data: Seq<u8>, i: int, le: int) -> int
    decreases le - i,
{
    if 0 <= i < le && data[i] == SPACE {
        space_run(data, i + 1, le)
    } else {
        i
    }
}

/// Bytes of plain prose: ASCII letters and digits, `_`, `-`, space and comma.
pub open spec fn plain_byte(b: u8) -> bool {
    label_byte(b) || b == SPACE || b == 44
}

/// Bytes `a..b` are plain prose.
pub open spec fn plain_text(data: Seq<u8>, a: int, b: int) -> bool {
    forall|k: int| a <= k < b ==> plain_byte(#[trigger] data[k])
}

/// Element heads from `i` in their plain form: `|name`, then the end of the
/// line, or spaces and another plain head, or spaces and plain prose.
pub open spec fn plain_heads(data: Seq<u8>, i: int, le: int) -> bool
    decreases le - i,
{
    &&& 0 <= i
    &&& i + 1 < le <= data.len()
    &&& data[i] == PIPE
    &&& name_start(data[i + 1])
    &&& {
        let e = name_run(data, i + 1, le);
        let sp = space_run(data, e, le);
        ||| e >= le
        ||| data[e] == SPACE && sp >= le
        ||| data[e] == SPACE && sp < le && data[sp] == PIPE && i < sp && plain_heads(data, sp, le)
        ||| data[e] == SPACE && sp < le && data[sp] != PIPE && plain_text(data, sp, le)
    }
}

/// The events of plain element heads from `i` on a line whose columns count
/// from `shift`, and the stack after them.
pub open spec fn head_result(
    stack: Seq<Frame>,
    data: Seq<u8>,
    ci: u32,
    base: u64,
    shift: int,
    i: int,
    le: int,
) -> (Seq<StreamingEvent>, Seq<Frame>)
    decreases le - i,
{
    let col = i - shift;
    let keep = keep_count(stack, col);
    let ends = close_events(stack.subrange(keep, stack.len() as int), span_range(base, i, i));
    let e = name_run(data, i + 1, le);
    let name = handle(ci, i + 1, e);
    let opened = stack.take(keep).push(
        Frame { kind: FrameKind::Element, name: Some(name), base_column: col as usize, content_base: None },
    );
    let start = seq![StreamingEvent::ElementStart { name: Some(name), span: span_range(base, i, e) }];
    let sp = space_run(data, e, le);
    if e >= le || sp >= le || sp <= e {
        (ends + start, opened)
    } else if data[sp] == PIPE && i < sp {
        let rest = head_result(opened, data, ci, base, shift, sp, le);
        (ends + start + rest.0, rest.1)
    } else {
        (ends + start + seq![StreamingEvent::Text { content: handle(ci, sp, le), span: span_range(base, sp, le) }], opened)
    }
}

/// A line `ls..le` in the plain fragment: blank, a comment, element heads, or
/// plain prose, indented with spaces.
#[verifier::opaque]
pub open spec fn plain_line(data: Seq<u8>, ls: int, le: int) -> bool {
    let p = space_run(data, ls, le);
    &&& 0 <= ls <= le <= data.len()
    &&& {
        ||| p >= le
        ||| data[p] == SEMICOLON && (p + 1 >= le || data[p + 1] != LBRACE)
        ||| plain_heads(data, p, le)
        ||| plain_text(data, p, le)
    }
}

/// The events of a plain line and the stack after it: the indentation rule
/// closes entries at or right of the line's column, then a comment, element
/// heads, or prose stripped of the innermost entry's content base (with a
/// warning where the line lies left of that base).
#[verifier::opaque]
pub open spec fn line_result(
    stack: Seq<Frame>,
    data: Seq<u8>,
    ci: u32,
    base: u64,
    ls: int,
    le: int,
) -> (Seq<StreamingEvent>, Seq<Frame>) {
    let p = space_run(data, ls, le);
    let col = p - ls;
    let keep = keep_count(stack, col);
    let kept = stack.take(keep);
    let ends = close_events(stack.subrange(keep, stack.len() as int), span_range(base, ls, ls));
    if p >= le {
        (Seq::empty(), stack)
    } else if data[p] == SEMICOLON {
        (ends + seq![StreamingEvent::Comment { content: handle(ci, p + 1, le), span: span_range(base, p, le) }], kept)
    } else if data[p] == PIPE {
        let heads = head_result(kept, data, ci, base, ls, p, le);
        (ends + heads.0, heads.1)
    } else if kept.len() == 0 {
        (ends + seq![StreamingEvent::Text { content: handle(ci, p, le), span: span_range(base, p, le) }], kept)
    } else {
        let n = kept.len() - 1;
        let f = kept[n];
        match f.content_base {
            None => (
                ends + seq![StreamingEvent::Text { content: handle(ci, p, le), span: span_range(base, p, le) }],
                kept.update(n, Frame { content_base: Some(col as usize), ..f }),
            ),
            Some(c) => if col < c {
                (
                    ends + seq![
                        StreamingEvent::Warning { code: ParseErrorCode::InconsistentIndent, span: span_range(base, p, p) },
                        StreamingEvent::Text { content: handle(ci, p, le), span: span_range(base, p, le) },
                    ],
                    kept.update(n, Frame { content_base: Some(col as usize), ..f }),
                )
            } else {
                (
                    ends + seq![StreamingEvent::Text { content: handle(ci, p - (col - c), le), span: span_range(base, p - (col - c), le) }],
                    kept.update(n, Frame { content_base: Some(c), ..f }),
                )
            },
        }
    }
}

proof fn lemma_name_run(data: Seq<u8>, i: int, le: int, r: int)
    requires
        0 <= i <= r <= le <= data.len(),
        forall|k: int| i <= k < r ==> name_byte(#[trigger] data[k]),
        r == le || !name_byte(data[r]),
    ensures
        name_run(data, i, le) == r,
    decreases r - i,
{
    if i < r {
        lemma_name_run(data, i + 1, le, r);
    }
}

proof fn lemma_count_spaces_all(s: Seq<u8>)
    requires
        forall|k: int| 0 <= k < s.len() ==> #[trigger] s[k] == SPACE,
    ensures
        count_spaces(s) == s.len(),
    decreases s.len(),
{
    if s.len() > 0 {
        lemma_count_spaces_all(s.drop_last());
    }
}

proof fn lemma_runs_bounded(data: Seq<u8>, i: int, le: int)
    requires
        0 <= i <= le <= data.len(),
    ensures
        i <= name_run(data, i, le) <= le,
        i <= space_run(data, i, le) <= le,
        name_run(data, i, le) == le || !name_byte(data[name_run(data, i, le)]),
        space_run(data, i, le) == le || data[space_run(data, i, le)] != SPACE,
        forall|k: int| i <= k < space_run(data, i, le) ==> #[trigger] data[k] == SPACE,
    decreases le - i,
{
    if i < le {
        lemma_runs_bounded(data, i + 1, le);
    }
}

proof fn lemma_space_run(data: Seq<u8>, i: int, le: int, r: int)
    requires
        0 <= i <= r <= le <= data.len(),
        forall|k: int| i <= k < r ==> #[trigger] data[k] == SPACE,
        r == le || data[r] != SPACE,
    ensures
        space_run(data, i, le) == r,
    decreases r - i,
{
    if i < r {
        lemma_space_run(data, i + 1, le, r);
    }
}

/// The first `\n` at or after `i`, or the end of `data`.
pub open spec fn newline_from(data: Seq<u8>, i: int) -> int
    decreases data.len() - i,
{
    if i < 0 || i >= data.len() {
        data.len() as int
    } else if data[i] == NEWLINE {
        i
    } else {
        newline_from(data, i + 1)
    }
}

/// Where the line that starts at `ls` ends: before its `\n` (and a `\r` just
/// before it), or at the end of `data`.
pub open spec fn line_end(data: Seq<u8>, ls: int) -> int {
    let k = newline_from(data, ls);
    if k >= data.len() {
        data.len() as int
    } else if k > ls && data[k - 1] == CR {
        k - 1
    } else {
        k
    }
}

/// Where the line after the one that starts at `ls` starts.
pub open spec fn line_next(data: Seq<u8>, ls: int) -> int {
    let k = newline_from(data, ls);
    if k >= data.len() {
        data.len() as int
    } else {
        k + 1
    }
}

/// What the parser did with one line: the chunk it lies in and that chunk's
/// stream offset, where the line starts, ends and the next one starts, the
/// open entries before and after it, and the range of events it produced.
pub struct LineRecord {
    pub chunk: int,
    pub base: u64,
    pub start: int,
    pub end: int,
    pub next: int,
    pub before: Seq<Frame>,
    pub after: Seq<Frame>,
    pub first_event: int,
    pub last_event: int,
}

/// The position (chunk, offset) of the line after the one `r` records.
pub open spec fn follow(chunks: Seq<Seq<u8>>, r: LineRecord) -> (int, int) {
    if r.next < chunks[r.chunk].len() {
        (r.chunk, r.next)
    } else {
        (r.chunk + 1, 0)
    }
}

/// The first `n` recorded lines are all plain.
#[verifier::opaque]
pub open spec fn plain_upto(chunks: Seq<Seq<u8>>, recs: Seq<LineRecord>, n: int) -> bool {
    forall|t: int| 0 <= t < n ==> #[trigger] plain_line(chunks[recs[t].chunk], recs[t].start, recs[t].end)
}

/// No open entry is a raw block.
pub open spec fn no_raw(s: Seq<Frame>) -> bool {
    forall|i: int| 0 <= i < s.len() ==> (#[trigger] s[i]).kind != FrameKind::Raw
}

/// The line log describes the input and the events: the lines follow one
/// another through the chunks from the first input chunk on, each line's
/// events follow the previous line's, and while every line so far is plain,
/// each line produced exactly `line_result` of the open entries before it.
#[verifier::opaque]
pub open spec fn log_ok(chunks: Seq<Seq<u8>>, recs: Seq<LineRecord>, events: Seq<StreamingEvent>) -> bool {
    forall|t: int| 0 <= t < recs.len() ==> {
        let r = #[trigger] recs[t];
        &&& 1 <= r.chunk < chunks.len()
        &&& 0 <= r.start < r.next <= chunks[r.chunk].len()
        &&& r.end == line_end(chunks[r.chunk], r.start)
        &&& r.next == line_next(chunks[r.chunk], r.start)
        &&& r.base + KEYS_LEN == total_len(chunks.take(r.chunk))
        &&& 0 <= r.first_event <= r.last_event <= events.len()
        &&& t == 0 ==> r.first_event == 0 && r.before == Seq::<Frame>::empty() && r.chunk == 1
            && r.start == 0
        &&& t > 0 ==> r.first_event == recs[t - 1].last_event && r.before == recs[t - 1].after
            && (r.chunk, r.start) == follow(chunks, recs[t - 1])
        &&& plain_upto(chunks, recs, t + 1) ==> {
            let lr = line_result(r.before, chunks[r.chunk], r.chunk as u32, r.base, r.start, r.end);
            &&& events.subrange(r.first_event, r.last_event) == lr.0
            &&& r.after == lr.1
        }
    }
}

proof fn lemma_newline_from(data: Seq<u8>, i: int, r: int)
    requires
        0 <= i <= r <= data.len(),
        forall|k: int| i <= k < r ==> #[trigger] data[k] != NEWLINE,
        r == data.len() || data[r] == NEWLINE,
    ensures
        newline_from(data, i) == r,
    decreases r - i,
{
    if i < r {
        lemma_newline_from(data, i + 1, r);
    }
}

proof fn lemma_head_no_raw(
    stack: Seq<Frame>,
    data: Seq<u8>,
    ci: u32,
    base: u64,
    shift: int,
    i: int,
    le: int,
)
    requires
        no_raw(stack),
    ensures
        no_raw(head_result(stack, data, ci, base, shift, i, le).1),
    decreases le - i,
{
    let col = i - shift;
    let keep = keep_count(stack, col);
    lemma_keep_count_bounds(stack, col);
    let e = name_run(data, i + 1, le);
    let opened = stack.take(keep).push(
        Frame { kind: FrameKind::Element, name: Some(handle(ci, i + 1, e)), base_column: col as usize, content_base: None },
    );
    assert(no_raw(opened)) by {
        assert forall|q: int| 0 <= q < opened.len() implies (#[trigger] opened[q]).kind != FrameKind::Raw by {
            if q < opened.len() - 1 {
                assert(opened[q] == stack[q]);
            }
        }
    }
    let sp = space_run(data, e, le);
    if !(e >= le || sp >= le || sp <= e) && data[sp] == PIPE && i < sp {
        lemma_head_no_raw(opened, data, ci, base, shift, sp, le);
    }
}

proof fn lemma_line_no_raw(stack: Seq<Frame>, data: Seq<u8>, ci: u32, base: u64, ls: int, le: int)
    requires
        no_raw(stack),
    ensures
        no_raw(line_result(stack, data, ci, base, ls, le).1),
{
    reveal(line_result);
    let p = space_run(data, ls, le);
    let col = p - ls;
    let keep = keep_count(stack, col);
    lemma_keep_count_bounds(stack, col);
    let kept = stack.take(keep);
    assert(no_raw(kept)) by {
        assert forall|q: int| 0 <= q < kept.len() implies (#[trigger] kept[q]).kind != FrameKind::Raw by {
            assert(kept[q] == stack[q]);
        }
    }
    if p < le && data[p] != SEMICOLON && data[p] == PIPE {
        lemma_head_no_raw(kept, data, ci, base, ls, p, le);
    }
    let r = line_result(stack, data, ci, base, ls, le).1;
    assert forall|q: int| 0 <= q < r.len() implies (#[trigger] r[q]).kind != FrameKind::Raw by {
        if p < le && data[p] != SEMICOLON && data[p] != PIPE && kept.len() > 0 && q == kept.len() - 1 {
            assert(r[q].kind == kept[q].kind);
        } else if p < le && data[p] != SEMICOLON && data[p] != PIPE && kept.len() > 0 {
            assert(r[q] == kept[q]);
        }
    }
}

proof fn lemma_log_grow_chunks(chunks: Seq<Seq<u8>>, c: Seq<u8>, recs: Seq<LineRecord>, events: Seq<StreamingEvent>)
    requires
        log_ok(chunks, recs, events),
    ensures
        log_ok(chunks.push(c), recs, events),
        forall|n: int| 0 <= n <= recs.len() ==> plain_upto(chunks.push(c), recs, n) == plain_upto(chunks, recs, n),
{
    reveal(log_ok);
    let c2 = chunks.push(c);
    assert forall|t: int| 0 <= t < recs.len() implies #[trigger] c2.take(recs[t].chunk) == chunks.take(recs[t].chunk) by {
        assert(c2.take(recs[t].chunk) =~= chunks.take(recs[t].chunk));
    }
    lemma_plain_grow_chunks(chunks, c, recs);
}

proof fn lemma_plain_grow_chunks(chunks: Seq<Seq<u8>>, c: Seq<u8>, recs: Seq<LineRecord>)
    requires
        forall|t: int| 0 <= t < recs.len() ==> 0 <= (#[trigger] recs[t]).chunk < chunks.len(),
    ensures
        forall|n: int| 0 <= n <= recs.len() ==> plain_upto(chunks.push(c), recs, n) == plain_upto(chunks, recs, n),
{
    reveal(plain_upto);
    let c2 = chunks.push(c);
    assert forall|n: int| 0 <= n <= recs.len() implies plain_upto(c2, recs, n) == plain_upto(chunks, recs, n) by {
        if plain_upto(c2, recs, n) {
            assert forall|t: int| 0 <= t < n implies #[trigger] plain_line(chunks[recs[t].chunk], recs[t].start, recs[t].end) by {
                assert(c2[recs[t].chunk] == chunks[recs[t].chunk]);
                assert(plain_line(c2[recs[t].chunk], recs[t].start, recs[t].end));
            }
        }
        if plain_upto(chunks, recs, n) {
            assert forall|t: int| 0 <= t < n implies #[trigger] plain_line(c2[recs[t].chunk], recs[t].start, recs[t].end) by {
                assert(c2[recs[t].chunk] == chunks[recs[t].chunk]);
                assert(plain_line(chunks[recs[t].chunk], recs[t].start, recs[t].end));
            }
        }
    }
}

proof fn lemma_log_prefix(chunks: Seq<Seq<u8>>, recs: Seq<LineRecord>, events: Seq<StreamingEvent>, events2: Seq<StreamingEvent>)
    requires
        log_ok(chunks, recs, events),
        is_prefix(events, events2),
    ensures
        log_ok(chunks, recs, events2),
{
    reveal(log_ok);
    assert forall|t: int| 0 <= t < recs.len() implies #[trigger] events2.subrange(recs[t].first_event, recs[t].last_event)
        == events.subrange(recs[t].first_event, recs[t].last_event) by {
        assert(events2.subrange(recs[t].first_event, recs[t].last_event) =~= events.subrange(recs[t].first_event, recs[t].last_event));
    }
}

#[verifier::rlimit(100)]
#[verifier::spinoff_prover]
proof fn lemma_log_extend(
    chunks: Seq<Seq<u8>>,
    recs: Seq<LineRecord>,
    events: Seq<StreamingEvent>,
    events2: Seq<StreamingEvent>,
    rec: LineRecord,
)
    requires
        log_ok(chunks, recs, events),
        is_prefix(events, events2),
        recs.len() == 0 ==> events.len() == 0,
        recs.len() > 0 ==> events.len() == recs.last().last_event,
        1 <= rec.chunk < chunks.len(),
        0 <= rec.start < rec.next <= chunks[rec.chunk].len(),
        rec.end == line_end(chunks[rec.chunk], rec.start),
        rec.next == line_next(chunks[rec.chunk], rec.start),
        rec.base + KEYS_LEN == total_len(chunks.take(rec.chunk)),
        rec.first_event == events.len(),
        rec.last_event == events2.len(),
        recs.len() == 0 ==> rec.before == Seq::<Frame>::empty() && rec.chunk == 1 && rec.start == 0,
        recs.len() > 0 ==> rec.before == recs.last().after && (rec.chunk, rec.start) == follow(
            chunks,
            recs.last(),
        ),
        plain_upto(chunks, recs.push(rec), recs.len() + 1int) ==> {
            let lr = line_result(rec.before, chunks[rec.chunk], rec.chunk as u32, rec.base, rec.start, rec.end);
            &&& events2.subrange(rec.first_event, rec.last_event) == lr.0
            &&& rec.after == lr.1
        },
    ensures
        log_ok(chunks, recs.push(rec), events2),
{
    reveal(log_ok);
    reveal(plain_upto);
    let r2 = recs.push(rec);
    assert forall|t: int| 0 <= t < r2.len() implies {
        let r = #[trigger] r2[t];
        &&& 1 <= r.chunk < chunks.len()
        &&& 0 <= r.start < r.next <= chunks[r.chunk].len()
        &&& r.end == line_end(chunks[r.chunk], r.start)
        &&& r.next == line_next(chunks[r.chunk], r.start)
        &&& r.base + KEYS_LEN == total_len(chunks.take(r.chunk))
        &&& 0 <= r.first_event <= r.last_event <= events2.len()
        &&& t == 0 ==> r.first_event == 0 && r.before == Seq::<Frame>::empty() && r.chunk == 1
            && r.start == 0
        &&& t > 0 ==> r.first_event == r2[t - 1].last_event && r.before == r2[t - 1].after
            && (r.chunk, r.start) == follow(chunks, r2[t - 1])
        &&& plain_upto(chunks, r2, t + 1) ==> {
            let lr = line_result(r.before, chunks[r.chunk], r.chunk as u32, r.base, r.start, r.end);
            &&& events2.subrange(r.first_event, r.last_event) == lr.0
            &&& r.after == lr.1
        }
    } by {
        if t < recs.len() {
            let r = recs[t];
            assert(r2[t] == r);
            if t > 0 {
                assert(r2[t - 1] == recs[t - 1]);
            }
            if plain_upto(chunks, r2, t + 1) {
                assert(plain_upto(chunks, recs, t + 1)) by {
                    assert forall|q: int| 0 <= q < t + 1 implies #[trigger] plain_line(chunks[recs[q].chunk], recs[q].start, recs[q].end) by {
                        assert(r2[q] == recs[q]);
                    }
                }
                assert(events2.subrange(r.first_event, r.last_event) =~= events.subrange(r.first_event, r.last_event));
            }
        } else {
            if t > 0 {
                assert(r2[t - 1] == recs.last());
            }
        }
    }
}

proof fn lemma_keep_count_bounds(stack: Seq<Frame>, col: int)
    ensures
        0 <= keep_count(stack, col) <= stack.len(),
        col <= 0 ==> keep_count(stack, col) == 0,
    decreases stack.len(),
{
    if stack.len() > 0 {
        lemma_keep_count_bounds(stack.drop_last(), col);
    }
}

/// State of the line dispatcher and indentation engine.
struct Engine {
    stack: Vec<Frame>,
    out: VecDeque<StreamingEvent>,
    freeform: bool,
    /// Arrays left open at the end of a line, continued on the next ones.
    arrays: usize,
    /// Every event produced so far, in order.
    history: Ghost<Seq<StreamingEvent>>,
    /// How many of them have left `out` for the ring.
    flushed: Ghost<nat>,
    /// The largest span start produced so far.
    mark: Ghost<int>,
    /// The chunk of the line being parsed, its length, and the number of
    /// events there were when the line began.
    chunk: Ghost<u32>,
    chunk_len: Ghost<nat>,
    line_start: Ghost<nat>,
}

impl Engine {
    /// Structures opened and not yet closed.
    spec fn open_count(&self) -> int {
        self.stack@.len() + self.arrays + if self.freeform {
            1int
        } else {
            0int
        }
    }

    /// The queue holds the events not yet handed out; spans never decrease;
    /// keys are paired with values; stack bases increase; the current line's
    /// handles stay in its chunk.
    spec fn sound(&self) -> bool {
        &&& self.flushed@ <= self.history@.len()
        &&& self.out@ == self.history@.skip(self.flushed@ as int)
        &&& spans_monotone(self.history@)
        &&& attributes_paired(self.history@)
        &&& self.mark@ >= 0
        &&& forall|i: int|
            0 <= i < self.history@.len() ==> (#[trigger] span_of(self.history@[i])).start
                <= self.mark@
        &&& stack_increasing(self.stack@)
        &&& self.line_start@ <= self.history@.len()
        &&& forall|i: int|
            self.line_start@ <= i < self.history@.len() ==> #[trigger] all_handles(
                self.history@[i],
                in_line(self.chunk@, self.chunk_len@),
            )
    }

    /// The handles of `e` lie in the current line's chunk or the key names.
    spec fn local(&self, e: StreamingEvent) -> bool {
        all_handles(e, in_line(self.chunk@, self.chunk_len@))
    }

    /// Sound, and every start without its end is an open structure.
    spec fn wf(&self) -> bool {
        self.sound() && depth(self.history@) == self.open_count()
    }

    /// `later` follows from `self` by emitting events: what was handed out is
    /// untouched and the balance between events and open structures is kept.
    spec fn evolves(&self, later: &Engine) -> bool {
        self.evolves_by(later, 0)
    }

    /// As `evolves`, with the balance moved by `d`.
    spec fn evolves_by(&self, later: &Engine, d: int) -> bool {
        &&& later.sound()
        &&& later.flushed@ == self.flushed@
        &&& is_prefix(self.history@, later.history@)
        &&& depth(later.history@) - later.open_count() == depth(self.history@) - self.open_count()
            + d
        &&& later.mark@ >= self.mark@
        &&& later.chunk@ == self.chunk@
        &&& later.chunk_len@ == self.chunk_len@
        &&& later.line_start@ == self.line_start@
    }

    fn new() -> (r: Engine)
        ensures
            r.wf(),
            r.history@ == Seq::<StreamingEvent>::empty(),
            r.flushed@ == 0,
            r.mark@ == 0,
            r.stack@.len() == 0,
            r.arrays == 0,
            !r.freeform,
    {
        let r = Engine {
            stack: Vec::new(),
            out: VecDeque::new(),
            freeform: false,
            arrays: 0,
            history: Ghost(Seq::empty()),
            flushed: Ghost(0),
            mark: Ghost(0),
            chunk: Ghost(0),
            chunk_len: Ghost(0),
            line_start: Ghost(0),
        };
        assert(r.out@ =~= r.history@.skip(0));
        r
    }

    /// Queue one event that is not an attribute key.
    fn emit(&mut self, ev: StreamingEvent)
        requires
            old(self).sound(),
            span_of(ev).start >= old(self).mark@,
            !(ev is Attribute),
            old(self).local(ev),
        ensures
            final(self).sound(),
            final(self).history@ == old(self).history@.push(ev),
            final(self).chunk@ == old(self).chunk@,
            final(self).chunk_len@ == old(self).chunk_len@,
            final(self).line_start@ == old(self).line_start@,
            depth(final(self).history@) == depth(old(self).history@) + depth_delta(ev),
            final(self).mark@ == span_of(ev).start,
            final(self).stack@ == old(self).stack@,
            final(self).freeform == old(self).freeform,
            final(self).arrays == old(self).arrays,
            final(self).flushed@ == old(self).flushed@,
    {
        let ghost h = self.history@;
        let ghost e = ev;
        self.out.push_back(ev);
        self.history = Ghost(h.push(e));
        self.mark = Ghost(span_of(e).start as int);
        proof {
            lemma_depth_push(h, e);
            assert(self.out@ =~= self.history@.skip(self.flushed@ as int));
            assert forall|i: int| 0 <= i < self.history@.len() && (#[trigger] self.history@[i]) is Attribute
                implies i + 1 < self.history@.len() && is_value_start(self.history@[i + 1]) by {
                assert(self.history@[i] == h[i]);
                assert(self.history@[i + 1] == h[i + 1]);
            }
            assert forall|i: int, j: int| 0 <= i <= j < self.history@.len() implies (#[trigger] span_of(
                self.history@[i],
            )).start <= (#[trigger] span_of(self.history@[j])).start by {
                if j < h.len() {
                    assert(self.history@[i] == h[i]);
                    assert(self.history@[j] == h[j]);
                } else if i < h.len() {
                    assert(self.history@[i] == h[i]);
                }
            }
            assert forall|i: int| 0 <= i < self.history@.len() implies (#[trigger] span_of(
                self.history@[i],
            )).start <= self.mark@ by {
                if i < h.len() {
                    assert(self.history@[i] == h[i]);
                }
            }
        }
    }

    /// Queue an attribute key together with the event that starts its value.
    fn emit_pair(&mut self, key: StreamingEvent, value: StreamingEvent)
        requires
            old(self).sound(),
            key is Attribute,
            is_value_start(value),
            old(self).mark@ <= span_of(key).start <= span_of(value).start,
            old(self).local(key),
            old(self).local(value),
        ensures
            final(self).sound(),
            final(self).history@ == old(self).history@.push(key).push(value),
            final(self).chunk@ == old(self).chunk@,
            final(self).chunk_len@ == old(self).chunk_len@,
            final(self).line_start@ == old(self).line_start@,
            depth(final(self).history@) == depth(old(self).history@) + depth_delta(value),
            final(self).mark@ == span_of(value).start,
            final(self).stack@ == old(self).stack@,
            final(self).freeform == old(self).freeform,
            final(self).arrays == old(self).arrays,
            final(self).flushed@ == old(self).flushed@,
    {
        let ghost h = self.history@;
        let ghost k = key;
        let ghost v = value;
        self.out.push_back(key);
        self.out.push_back(value);
        let ghost h2 = h.push(k).push(v);
        self.history = Ghost(h2);
        self.mark = Ghost(span_of(v).start as int);
        proof {
            lemma_depth_push(h, k);
            lemma_depth_push(h.push(k), v);
            assert(self.out@ =~= self.history@.skip(self.flushed@ as int));
            assert forall|i: int| 0 <= i < h2.len() && (#[trigger] h2[i]) is Attribute
                implies i + 1 < h2.len() && is_value_start(h2[i + 1]) by {
                if i < h.len() {
                    assert(h2[i] == h[i]);
                    if i + 1 < h.len() {
                        assert(h2[i + 1] == h[i + 1]);
                    }
                }
            }
            assert forall|i: int, j: int| 0 <= i <= j < h2.len() implies (#[trigger] span_of(
                h2[i],
            )).start <= (#[trigger] span_of(h2[j])).start by {
                if j < h.len() {
                    assert(h2[i] == h[i]);
                    assert(h2[j] == h[j]);
                } else if i < h.len() {
                    assert(h2[i] == h[i]);
                }
            }
            assert forall|i: int| 0 <= i < h2.len() implies (#[trigger] span_of(h2[i])).start
                <= self.mark@ by {
                if i < h.len() {
                    assert(h2[i] == h[i]);
                }
            }
        }
    }

    /// Queue `Text` for `a..b` unless it is empty.
    fn text(&mut self, data: &[u8], ci: u32, base: u64, a: usize, b: usize)
        requires
            old(self).sound(),
            a <= b <= data@.len(),
            chunk_fits(data@, base),
            old(self).chunk@ == ci,
            old(self).chunk_len@ == data@.len(),
            old(self).mark@ <= base + a,
        ensures
            old(self).evolves(final(self)),
            final(self).mark@ <= base + a,
            final(self).stack@ == old(self).stack@,
            final(self).freeform == old(self).freeform,
            final(self).arrays == old(self).arrays,
            final(self).history@ == if a < b {
                old(self).history@.push(
                    StreamingEvent::Text { content: handle(ci, a as int, b as int), span: span_range(base, a as int, b as int) },
                )
            } else {
                old(self).history@
            },
    {
        if a < b {
            self.emit(StreamingEvent::Text { content: slice_of(ci, a, b), span: span_at(base, a, b) });
        }
    }

    /// Queue a non-structural event (no start, end or attribute key).
    fn note(&mut self, ev: StreamingEvent)
        requires
            old(self).sound(),
            span_of(ev).start >= old(self).mark@,
            !(ev is Attribute),
            depth_delta(ev) == 0,
            old(self).local(ev),
        ensures
            old(self).evolves(final(self)),
            final(self).mark@ == span_of(ev).start,
            final(self).history@ == old(self).history@.push(ev),
            final(self).stack@ == old(self).stack@,
            final(self).freeform == old(self).freeform,
            final(self).arrays == old(self).arrays,
    {
        self.emit(ev);
    }

    /// Queue an attribute key with a scalar value, or with `ArrayStart`.
    fn pair(&mut self, key: StreamingEvent, value: StreamingEvent)
        requires
            old(self).sound(),
            key is Attribute,
            is_value_start(value),
            old(self).mark@ <= span_of(key).start <= span_of(value).start,
            old(self).local(key),
            old(self).local(value),
        ensures
            old(self).evolves_by(final(self), depth_delta(value)),
            final(self).mark@ == span_of(value).start,
            final(self).stack@ == old(self).stack@,
            final(self).freeform == old(self).freeform,
            final(self).arrays == old(self).arrays,
    {
        self.emit_pair(key, value);
    }

    /// Items of an array whose `[` stood just before `i`, up to and including
    /// its `]`; an array still open at the end of the line continues on the
    /// next lines.
    #[verifier::loop_isolation(false)]
    fn parse_array(&mut self, data: &[u8], ci: u32, base: u64, i: usize, le: usize) -> (r: usize)
        requires
            old(self).sound(),
            i <= le <= data@.len(),
            chunk_fits(data@, base),
            old(self).chunk@ == ci,
            old(self).chunk_len@ == data@.len(),
            old(self).mark@ <= base + i,
        ensures
            old(self).evolves_by(final(self), -1),
            i <= r <= le,
            final(self).mark@ <= base + r,
            final(self).stack@ == old(self).stack@,
            final(self).freeform == old(self).freeform,
        decreases le - i,
    {
        let ghost start = *self;
        let mut j = i;
        while j < le
            invariant
                start.evolves(self),
                i <= j <= le <= data@.len(),
                chunk_fits(data@, base),
                self.chunk@ == ci,
                self.chunk_len@ == data@.len(),
                self.mark@ <= base + j,
                self.stack@ == start.stack@,
                self.freeform == start.freeform,
            decreases le - j,
        {
            let b = data[j];
            if b == SPACE {
                j = j + 1;
            } else if b == RBRACKET {
                self.emit(StreamingEvent::ArrayEnd { span: span_at(base, j, j + 1) });
                return j + 1;
            } else if b == LBRACKET {
                self.emit(StreamingEvent::ArrayStart { span: span_at(base, j, j + 1) });
                j = self.parse_array(data, ci, base, j + 1, le);
            } else {
                let (ev, e, err) = read_value(data, ci, base, j, le, true, false);
                self.note(ev);
                if let Some(code) = err {
                    self.note(StreamingEvent::Error { code, span: span_at(base, e, e) });
                }
                j = e;
            }
        }
        if self.arrays < usize::MAX {
            self.arrays = self.arrays + 1;
        } else {
            self.note(StreamingEvent::Error { code: ParseErrorCode::UnclosedArray, span: span_at(base, le, le) });
            self.emit(StreamingEvent::ArrayEnd { span: span_at(base, le, le) });
        }
        le
    }

    /// Items of arrays left open by earlier lines, from `i`.
    #[verifier::loop_isolation(false)]
    fn continue_array(&mut self, data: &[u8], ci: u32, base: u64, i: usize, le: usize)
        requires
            old(self).sound(),
            i <= le <= data@.len(),
            chunk_fits(data@, base),
            old(self).chunk@ == ci,
            old(self).chunk_len@ == data@.len(),
            old(self).mark@ <= base + i,
        ensures
            old(self).evolves(final(self)),
            final(self).mark@ <= base + le,
            final(self).stack@ == old(self).stack@,
            final(self).freeform == old(self).freeform,
    {
        let ghost start = *self;
        let mut j = i;
        while j < le && self.arrays > 0
            invariant
                start.evolves(self),
                i <= j <= le <= data@.len(),
                chunk_fits(data@, base),
                self.chunk@ == ci,
                self.chunk_len@ == data@.len(),
                self.mark@ <= base + j,
                self.stack@ == start.stack@,
                self.freeform == start.freeform,
            decreases le - j,
        {
            let b = data[j];
            if b == SPACE || b == TAB {
                j = j + 1;
            } else if b == RBRACKET {
                self.emit(StreamingEvent::ArrayEnd { span: span_at(base, j, j + 1) });
                self.arrays = self.arrays - 1;
                j = j + 1;
            } else if b == LBRACKET {
                self.emit(StreamingEvent::ArrayStart { span: span_at(base, j, j + 1) });
                j = self.parse_array(data, ci, base, j + 1, le);
            } else {
                let (ev, e, err) = read_value(data, ci, base, j, le, true, false);
                self.note(ev);
                if let Some(code) = err {
                    self.note(StreamingEvent::Error { code, span: span_at(base, e, e) });
                }
                j = e;
            }
        }
        let r = skip_spaces(data, j, le);
        if r < le {
            self.note(StreamingEvent::Error { code: ParseErrorCode::UnexpectedAfterValue, span: span_at(base, r, le) });
        }
    }

    /// The identity pieces `[id]`, `.class` and suffixes that follow a name at `i`.
    fn parse_identity(&mut self, data: &[u8], ci: u32, base: u64, i: usize, le: usize) -> (r: usize)
        requires
            old(self).sound(),
            i <= le <= data@.len(),
            chunk_fits(data@, base),
            old(self).chunk@ == ci,
            old(self).chunk_len@ == data@.len(),
            old(self).mark@ <= base + i,
        ensures
            old(self).evolves(final(self)),
            i <= r <= le,
            final(self).mark@ <= base + r,
            final(self).stack@ == old(self).stack@,
            final(self).freeform == old(self).freeform,
            final(self).arrays == old(self).arrays,
            (i >= le || data@[i as int] == SPACE) ==> r == i && final(self).history@ == old(
                self,
            ).history@,
    {
        if i >= le || data[i] == SPACE {
            return i;
        }
        let ghost start = *self;
        let mut j = i;
        while j < le
            invariant
                start.evolves(self),
                i <= j <= le <= data@.len(),
                chunk_fits(data@, base),
                self.chunk@ == ci,
                self.chunk_len@ == data@.len(),
                self.mark@ <= base + j,
                self.stack@ == start.stack@,
                self.freeform == start.freeform,
                self.arrays == start.arrays,
            decreases le - j,
        {
            let b = data[j];
            if b == LBRACKET {
                match find_byte(data, j + 1, le, RBRACKET) {
                    Some(e) => {
                        if e > j + 1 {
                            self.pair(
                                StreamingEvent::Attribute { key: id_key(), span: span_at(base, j, e + 1) },
                                StreamingEvent::StringValue { value: slice_of(ci, j + 1, e), span: span_at(base, j + 1, e) },
                            );
                        }
                        j = e + 1;
                    },
                    None => {
                        self.note(StreamingEvent::Error { code: ParseErrorCode::UnclosedBracket, span: span_at(base, j, le) });
                        j = le;
                    },
                }
            } else if b == DOT {
                if j + 1 < le && data[j + 1] == QUOTE {
                    match find_quote_end(data, j + 2, le, QUOTE) {
                        Some(e) => {
                            self.pair(
                                StreamingEvent::Attribute { key: class_key(), span: span_at(base, j, e + 1) },
                                StreamingEvent::QuotedStringValue { value: slice_of(ci, j + 2, e), span: span_at(base, j + 1, e + 1) },
                            );
                            j = e + 1;
                        },
                        None => {
                            self.note(StreamingEvent::Error { code: ParseErrorCode::UnclosedQuote, span: span_at(base, j, le) });
                            j = le;
                        },
                    }
                } else if j + 1 < le && is_label_byte(data[j + 1]) {
                    let e = scan_label(data, j + 1, le);
                    self.pair(
                        StreamingEvent::Attribute { key: class_key(), span: span_at(base, j, e) },
                        StreamingEvent::StringValue { value: slice_of(ci, j + 1, e), span: span_at(base, j + 1, e) },
                    );
                    j = e;
                } else {
                    self.note(StreamingEvent::Error { code: ParseErrorCode::ExpectedClassName, span: span_at(base, j, j + 1) });
                    j = j + 1;
                }
            } else if is_suffix(b) {
                self.pair(
                    StreamingEvent::Attribute { key: slice_of(ci, j, j + 1), span: span_at(base, j, j + 1) },
                    StreamingEvent::BoolValue { value: true, span: span_at(base, j, j + 1) },
                );
                j = j + 1;
            } else {
                break;
            }
        }
        j
    }

    /// `:[id]` at `i`: an attribute merge. Returns where it ends.
    fn merge_reference(&mut self, data: &[u8], ci: u32, base: u64, i: usize, le: usize) -> (r: usize)
        requires
            old(self).sound(),
            i + 1 < le <= data@.len(),
            chunk_fits(data@, base),
            old(self).chunk@ == ci,
            old(self).chunk_len@ == data@.len(),
            old(self).mark@ <= base + i,
        ensures
            old(self).evolves(final(self)),
            i < r <= le,
            final(self).mark@ <= base + r,
            final(self).stack@ == old(self).stack@,
            final(self).freeform == old(self).freeform,
            final(self).arrays == old(self).arrays,
    {
        match find_byte(data, i + 2, le, RBRACKET) {
            Some(e) => {
                self.note(StreamingEvent::AttributeMerge { id: slice_of(ci, i + 2, e), span: span_at(base, i, e + 1) });
                e + 1
            },
            None => {
                self.note(StreamingEvent::Error { code: ParseErrorCode::UnclosedBracket, span: span_at(base, i, le) });
                le
            },
        }
    }

    /// An attribute `:key value` at `i`. On a head line (`whole_line` false) a
    /// bare value ends at a space (or, `in_braces`, at `}`); on an attribute
    /// line it runs to the line end.
    fn parse_attribute(&mut self, data: &[u8], ci: u32, base: u64, i: usize, le: usize, whole_line: bool, in_braces: bool) -> (r: usize)
        requires
            old(self).sound(),
            i < le <= data@.len(),
            data@[i as int] == COLON,
            chunk_fits(data@, base),
            old(self).chunk@ == ci,
            old(self).chunk_len@ == data@.len(),
            old(self).mark@ <= base + i,
        ensures
            old(self).evolves(final(self)),
            i < r <= le,
            final(self).mark@ <= base + r,
            final(self).stack@ == old(self).stack@,
            final(self).freeform == old(self).freeform,
    {
        let k = i + 1;
        if k < le && data[k] == LBRACKET {
            return self.merge_reference(data, ci, base, i, le);
        }
        let (key, ke) = if k < le && data[k] == QUOTE {
            match find_quote_end(data, k + 1, le, QUOTE) {
                Some(e) => (slice_of(ci, k + 1, e), e + 1),
                None => {
                    self.note(StreamingEvent::Error { code: ParseErrorCode::UnclosedQuote, span: span_at(base, i, le) });
                    return le;
                },
            }
        } else {
            let e = scan_label(data, k, le);
            if e == k {
                self.note(StreamingEvent::Error { code: ParseErrorCode::ExpectedAttrKey, span: span_at(base, i, k) });
                return k;
            }
            (slice_of(ci, k, e), e)
        };
        let key_ev = StreamingEvent::Attribute { key, span: span_at(base, i, ke) };
        let v = skip_spaces(data, ke, le);
        if v == le || v == ke || data[v] == COLON || data[v] == PIPE || data[v] == SEMICOLON || (in_braces
            && data[v] == RBRACE) {
            self.pair(key_ev, StreamingEvent::BoolValue { value: true, span: span_at(base, ke, ke) });
            return ke;
        }
        if data[v] == LBRACKET {
            self.pair(key_ev, StreamingEvent::ArrayStart { span: span_at(base, v, v + 1) });
            return self.parse_array(data, ci, base, v + 1, le);
        }
        if whole_line && data[v] != DQUOTE && data[v] != QUOTE {
            let mut e = le;
            while e > v && data[e - 1] == SPACE
                invariant
                    v < le <= data@.len(),
                    v <= e <= le,
                decreases e,
            {
                e = e - 1;
            }
            self.pair(key_ev, scalar_event(data, ci, base, v, e));
            return le;
        }
        let (ev, e, err) = read_value(data, ci, base, v, le, false, in_braces);
        self.pair(key_ev, ev);
        if let Some(code) = err {
            self.note(StreamingEvent::Error { code, span: span_at(base, e, e) });
        }
        e
    }

    /// Prose from `i`: text, with interpolations `!{{...}}`, inline directives
    /// `!ns:name{...}` or `!{ns:name content}`, references `@[id]`, inline
    /// comments `;{...}`, embedded elements `|{...}`,
    /// `'` escapes, and (outside braces) a `;` that comments out the rest of
    /// the line. Inside an embedded element (`nested`) it stops at the `}`
    /// that closes it and returns its position; otherwise it runs to `le`.
    #[verifier::loop_isolation(false)]
    #[verifier::rlimit(100)]
    fn parse_inline(&mut self, data: &[u8], ci: u32, base: u64, i: usize, le: usize, nested: bool) -> (r: usize)
        requires
            old(self).sound(),
            i <= le <= data@.len(),
            chunk_fits(data@, base),
            old(self).chunk@ == ci,
            old(self).chunk_len@ == data@.len(),
            old(self).mark@ <= base + i,
        ensures
            old(self).evolves(final(self)),
            i <= r <= le,
            final(self).mark@ <= base + r,
            final(self).stack@ == old(self).stack@,
            final(self).freeform == old(self).freeform,
            nested && r < le ==> data@[r as int] == RBRACE,
            !nested && plain_text(data@, i as int, le as int) ==> final(self).arrays == old(self).arrays,
            !nested && plain_text(data@, i as int, le as int) ==> r == le && final(self).history@
                == if i < le {
                old(self).history@.push(
                    StreamingEvent::Text { content: handle(ci, i as int, le as int), span: span_range(base, i as int, le as int) },
                )
            } else {
                old(self).history@
            },
        decreases 2 * (le - i) + 1,
    {
        let ghost start = *self;
        let mut s = i;
        let mut k = i;
        let mut level: usize = 0;
        while k < le
            invariant
                start.evolves(self),
                i <= s <= k <= le <= data@.len(),
                level <= k,
                self.mark@ <= base + s,
                self.stack@ == start.stack@,
                self.freeform == start.freeform,
                !nested && plain_text(data@, i as int, le as int) ==> s == i && self.history@
                    == start.history@ && self.arrays == start.arrays,
            decreases le - k,
        {
            let b = data[k];
            if b == QUOTE && le - k > 1 && (data[k + 1] == PIPE || data[k + 1] == COLON || data[k + 1] == SEMICOLON
                || data[k + 1] == QUOTE || data[k + 1] == BANG) {
                self.text(data, ci, base, s, k);
                s = k + 1;
                k = k + 2;
            } else if b == BANG && le - k > 2 && data[k + 1] == LBRACE && data[k + 2] == LBRACE {
                self.text(data, ci, base, s, k);
                match find_brace_close(data, k + 3, le, true) {
                    Some(e) => {
                        self.note(StreamingEvent::Interpolation {
                            expression: slice_of(ci, k + 3, e),
                            span: span_at(base, k, e + 2),
                        });
                        k = e + 2;
                    },
                    None => {
                        self.note(StreamingEvent::Error { code: ParseErrorCode::Unclosed, span: span_at(base, k, le) });
                        k = le;
                    },
                }
                s = k;
            } else if b == BANG && le - k > 2 && data[k + 1] == LBRACE && is_label_byte(data[k + 2]) {
                let n1 = scan_label(data, k + 2, le);
                let (ns, ns_end, ne) = if n1 < le && le - n1 > 1 && data[n1] == COLON && is_label_byte(data[n1 + 1]) {
                    (Some(slice_of(ci, k + 2, n1)), n1 + 1, scan_label(data, n1 + 1, le))
                } else {
                    (None, k + 2, n1)
                };
                self.text(data, ci, base, s, k);
                let cs = if ne < le && data[ne] == SPACE {
                    ne + 1
                } else {
                    ne
                };
                match find_brace_close(data, cs, le, false) {
                    Some(e) => {
                        let d = crate::event::InlineDirectiveData {
                            name: slice_of(ci, ns_end, ne),
                            namespace: ns,
                            content: slice_of(ci, cs, e),
                            span: span_at(base, k, e + 1),
                        };
                        self.note(StreamingEvent::InlineDirective(Box::new(d)));
                        k = e + 1;
                        s = k;
                    },
                    None => {
                        self.note(StreamingEvent::Error { code: ParseErrorCode::UnclosedDirective, span: span_at(base, k, le) });
                        s = k;
                        k = le;
                    },
                }
            } else if b == AT && le - k > 1 && data[k + 1] == LBRACKET {
                match find_byte(data, k + 2, le, RBRACKET) {
                    Some(e) => {
                        self.text(data, ci, base, s, k);
                        self.note(StreamingEvent::IdReference { id: slice_of(ci, k + 2, e), span: span_at(base, k, e + 1) });
                        k = e + 1;
                        s = k;
                    },
                    None => {
                        k = k + 1;
                    },
                }
            } else if b == BANG && le - k > 1 && is_label_byte(data[k + 1]) {
                let n1 = scan_label(data, k + 1, le);
                let (ns, ns_end, ne) = if n1 < le && le - n1 > 1 && data[n1] == COLON && is_label_byte(data[n1 + 1]) {
                    (Some(slice_of(ci, k + 1, n1)), n1 + 1, scan_label(data, n1 + 1, le))
                } else {
                    (None, k + 1, n1)
                };
                if ne < le && data[ne] == LBRACE {
                    self.text(data, ci, base, s, k);
                    match find_brace_close(data, ne + 1, le, false) {
                        Some(e) => {
                            let d = crate::event::InlineDirectiveData {
                                name: slice_of(ci, ns_end, ne),
                                namespace: ns,
                                content: slice_of(ci, ne + 1, e),
                                span: span_at(base, k, e + 1),
                            };
                            self.note(StreamingEvent::InlineDirective(Box::new(d)));
                            k = e + 1;
                            s = k;
                        },
                        None => {
                            self.note(StreamingEvent::Error { code: ParseErrorCode::UnclosedDirective, span: span_at(base, k, le) });
                            s = k;
                            k = le;
                        },
                    }
                } else {
                    k = k + 1;
                }
            } else if b == SEMICOLON && le - k > 1 && data[k + 1] == LBRACE {
                self.text(data, ci, base, s, k);
                match find_brace_close(data, k + 2, le, false) {
                    Some(e) => {
                        self.note(StreamingEvent::Comment { content: slice_of(ci, k + 2, e), span: span_at(base, k, e + 1) });
                        k = e + 1;
                        s = k;
                    },
                    None => {
                        self.note(StreamingEvent::Error { code: ParseErrorCode::UnclosedComment, span: span_at(base, k, le) });
                        s = k;
                        k = le;
                    },
                }
            } else if b == SEMICOLON && !nested {
                self.text(data, ci, base, s, k);
                self.note(StreamingEvent::Comment { content: slice_of(ci, k + 1, le), span: span_at(base, k, le) });
                return le;
            } else if b == PIPE && le - k > 1 && data[k + 1] == LBRACE {
                self.text(data, ci, base, s, k);
                k = self.parse_embedded(data, ci, base, k, le);
                s = k;
            } else if nested && b == LBRACE {
                level = level + 1;
                k = k + 1;
            } else if nested && b == RBRACE {
                if level == 0 {
                    self.text(data, ci, base, s, k);
                    return k;
                }
                level = level - 1;
                k = k + 1;
            } else {
                k = k + 1;
            }
        }
        self.text(data, ci, base, s, le);
        le
    }

    /// An embedded element `|{name ... content}` at `i`; returns where it ends.
    fn parse_embedded(&mut self, data: &[u8], ci: u32, base: u64, i: usize, le: usize) -> (r: usize)
        requires
            old(self).sound(),
            i + 1 < le <= data@.len(),
            chunk_fits(data@, base),
            old(self).chunk@ == ci,
            old(self).chunk_len@ == data@.len(),
            old(self).mark@ <= base + i,
        ensures
            old(self).evolves(final(self)),
            i < r <= le,
            final(self).mark@ <= base + r,
            final(self).stack@ == old(self).stack@,
            final(self).freeform == old(self).freeform,
        decreases 2 * (le - i),
    {
        let ghost start = *self;
        let mut j = i + 2;
        let name = if j < le && is_name_start(data[j]) {
            let e = scan_name(data, j, le);
            let n = slice_of(ci, j, e);
            j = e;
            Some(n)
        } else if j < le && data[j] == QUOTE {
            match find_quote_end(data, j + 1, le, QUOTE) {
                Some(e) => {
                    let n = slice_of(ci, j + 1, e);
                    j = e + 1;
                    Some(n)
                },
                None => None,
            }
        } else {
            None
        };
        self.emit(StreamingEvent::EmbeddedStart { name, span: span_at(base, i, j) });
        j = self.parse_identity(data, ci, base, j, le);
        while j < le
            invariant
                start.evolves_by(self, 1),
                i < j <= le <= data@.len(),
                chunk_fits(data@, base),
                self.chunk@ == ci,
                self.chunk_len@ == data@.len(),
                self.mark@ <= base + j,
                self.stack@ == start.stack@,
                self.freeform == start.freeform,
            decreases le - j,
        {
            let sp = skip_spaces(data, j, le);
            if sp < le && sp > j && data[sp] == COLON {
                j = self.parse_attribute(data, ci, base, sp, le, false, true);
            } else {
                break;
            }
        }
        if j < le && data[j] == SPACE {
            j = j + 1;
        }
        let e = self.parse_inline(data, ci, base, j, le, true);
        if e < le {
            let ghost h2 = self.history@;
            self.emit(StreamingEvent::EmbeddedEnd { span: span_at(base, e, e + 1) });
            e + 1
        } else {
            self.note(StreamingEvent::Error { code: ParseErrorCode::Unclosed, span: span_at(base, le, le) });
            self.emit(StreamingEvent::EmbeddedEnd { span: span_at(base, le, le) });
            le
        }
    }

    /// An element head at `i` (a `|` that opens an element) and whatever follows
    /// it on the line: identity, inline attributes, then an inline child head, a
    /// comment, or inline content. Columns are byte offsets from `shift`.
    fn parse_head(&mut self, data: &[u8], ci: u32, base: u64, shift: usize, i: usize, le: usize)
        requires
            old(self).sound(),
            shift <= i,
            i + 1 < le <= data@.len(),
            data@[i as int] == PIPE,
            chunk_fits(data@, base),
            old(self).chunk@ == ci,
            old(self).chunk_len@ == data@.len(),
            old(self).mark@ <= base + i,
        ensures
            old(self).evolves(final(self)),
            final(self).mark@ <= base + le,
            final(self).freeform == old(self).freeform,
            exists|k: int| #[trigger] opened_at(old(self).stack@, final(self).stack@, i - shift, k),
            plain_heads(data@, i as int, le as int) ==> final(self).arrays == old(self).arrays,
            plain_heads(data@, i as int, le as int) ==> final(self).history@ == old(self).history@
                + head_result(old(self).stack@, data@, ci, base, shift as int, i as int, le as int).0
                && final(self).stack@ == head_result(
                old(self).stack@,
                data@,
                ci,
                base,
                shift as int,
                i as int,
                le as int,
            ).1,
        decreases le - i,
    {
        let ghost start = *self;
        let ghost plain = plain_heads(data@, i as int, le as int);
        let ghost res = head_result(start.stack@, data@, ci, base, shift as int, i as int, le as int);
        let ghost e0 = name_run(data@, i + 1, le as int);
        let ghost sp0 = space_run(data@, e0, le as int);
        proof {
            lemma_runs_bounded(data@, i + 1, le as int);
            lemma_runs_bounded(data@, e0, le as int);
            if plain && sp0 < le && data@[sp0] != PIPE {
                assert(plain_text(data@, sp0, le as int));
                assert(plain_byte(data@[sp0]));
            }
        }
        let col = i - shift;
        let closed = self.close_for(col, span_at(base, i, i));
        let ghost k = start.stack@.len() - closed;
        let ghost after_close = self.stack@;
        let mut j = i + 1;
        let mut open_quote = false;
        let name = if is_name_start(data[j]) {
            let e = scan_name(data, j, le);
            proof {
                lemma_name_run(data@, j as int, le as int, e as int);
            }
            let n = slice_of(ci, j, e);
            j = e;
            Some(n)
        } else if data[j] == QUOTE {
            match find_quote_end(data, j + 1, le, QUOTE) {
                Some(e) => {
                    let n = slice_of(ci, j + 1, e);
                    j = e + 1;
                    Some(n)
                },
                None => {
                    open_quote = true;
                    Some(slice_of(ci, j + 1, le))
                },
            }
        } else {
            None
        };
        self.open_frame(
            Frame { kind: FrameKind::Element, name, base_column: col, content_base: None },
            StreamingEvent::ElementStart { name, span: span_at(base, i, j) },
        );
        let ghost mid = self.stack@;
        let ghost h_open = self.history@;
        proof {
            if plain {
                let keep = keep_count(start.stack@, col as int);
                assert(j == e0);
                assert(name == Some(handle(ci, i + 1, e0)));
                assert(mid =~= start.stack@.take(keep).push(
                    Frame { kind: FrameKind::Element, name: Some(handle(ci, i + 1, e0)), base_column: col, content_base: None },
                ));
                assert(h_open =~= start.history@ + close_events(
                    start.stack@.subrange(keep, start.stack@.len() as int),
                    span_range(base, i as int, i as int),
                ) + seq![StreamingEvent::ElementStart { name: Some(handle(ci, i + 1, e0)), span: span_range(base, i as int, e0) }]);
            }
        }
        assert(opened_at(start.stack@, mid, col as int, k)) by {
            assert(mid.take(k) =~= start.stack@.take(k));
            assert forall|j: int| 0 <= j < k implies (#[trigger] start.stack@[j]).base_column < col by {
                assert(after_close[j] == start.stack@[j]);
            }
            assert(mid[k].base_column == col);
        }
        if open_quote {
            self.note(StreamingEvent::Error { code: ParseErrorCode::UnclosedQuote, span: span_at(base, j, le) });
            return;
        }
        j = self.parse_identity(data, ci, base, j, le);
        let ghost mut first = true;
        while j < le
            invariant
                start.evolves(self),
                i < j <= le <= data@.len(),
                chunk_fits(data@, base),
                self.chunk@ == ci,
                self.chunk_len@ == data@.len(),
                self.mark@ <= base + j,
                self.freeform == start.freeform,
                self.stack@ == mid,
                plain ==> self.history@ == h_open && (j == e0 || j == sp0),
                plain ==> (e0 < le ==> data@[e0] == SPACE) && e0 <= sp0 <= le,
                plain ==> sp0 == le || data@[sp0] != SPACE,
                plain ==> forall|q: int| e0 <= q < sp0 ==> #[trigger] data@[q] == SPACE,
                plain && sp0 < le ==> data@[sp0] == PIPE || plain_byte(data@[sp0]),
                plain ==> j == e0 || e0 < le,
                plain && first ==> j == e0,
                plain ==> self.arrays == start.arrays,
                plain && !first ==> j == sp0 && e0 < le,
            ensures
                plain ==> (j == sp0 && e0 < le) || j >= le,
            decreases le - j,
        {
            let sp = skip_spaces(data, j, le);
            proof {
                first = false;
                if plain {
                    lemma_space_run(data@, j as int, le as int, sp as int);
                }
            }
            if sp == j || sp == le {
                j = sp;
                break;
            }
            let b = data[sp];
            if b == COLON {
                j = self.parse_attribute(data, ci, base, sp, le, false, false);
            } else if is_suffix(b) && (sp + 1 == le || data[sp + 1] == SPACE) {
                self.pair(
                    StreamingEvent::Attribute { key: slice_of(ci, sp, sp + 1), span: span_at(base, sp, sp + 1) },
                    StreamingEvent::BoolValue { value: true, span: span_at(base, sp, sp + 1) },
                );
                j = sp + 1;
            } else if b == DOT && le - sp > 1 && is_name_start(data[sp + 1]) {
                j = self.parse_identity(data, ci, base, sp, le);
                if j == sp {
                    break;
                }
            } else {
                j = sp;
                break;
            }
        }
        proof {
            if plain {
                let keep = keep_count(start.stack@, col as int);
                let ends = close_events(start.stack@.subrange(keep, start.stack@.len() as int), span_range(base, i as int, i as int));
                let st = seq![StreamingEvent::ElementStart { name: Some(handle(ci, i + 1, e0)), span: span_range(base, i as int, e0) }];
                assert(res.1 == mid || (e0 < le && sp0 < le && sp0 > e0));
                if e0 >= le || sp0 >= le {
                    assert(res.0 =~= ends + st);
                    assert(self.history@ =~= start.history@ + res.0);
                }
            }
        }
        if j >= le {
            return;
        }
        let b = data[j];
        if b == PIPE && opens_element_at(data, j, le) {
            let ghost h_before = self.history@;
            self.parse_head(data, ci, base, shift, j, le);
            proof {
                if plain {
                    assert(plain_heads(data@, sp0, le as int));
                    let keep = keep_count(start.stack@, col as int);
                    let ends = close_events(start.stack@.subrange(keep, start.stack@.len() as int), span_range(base, i as int, i as int));
                    let st = seq![StreamingEvent::ElementStart { name: Some(handle(ci, i + 1, e0)), span: span_range(base, i as int, e0) }];
                    let rest = head_result(mid, data@, ci, base, shift as int, sp0, le as int);
                    assert(res.0 =~= ends + st + rest.0);
                    assert(self.history@ =~= start.history@ + res.0);
                }
                let k2 = choose|k2: int| #[trigger] opened_at(mid, self.stack@, j - shift, k2);
                if k2 <= k {
                    assert(mid[k].base_column >= j - shift);
                }
                assert(k2 == k + 1);
                assert(self.stack@.take(k) =~= self.stack@.take(k2).take(k));
                assert(mid.take(k2).take(k) =~= mid.take(k));
                assert(self.stack@[k] == self.stack@.take(k2)[k]);
                assert(opened_at(start.stack@, self.stack@, col as int, k));
            }
        } else if b == SEMICOLON && !(le - j > 1 && data[j + 1] == LBRACE) {
            self.note(StreamingEvent::Comment { content: slice_of(ci, j + 1, le), span: span_at(base, j, le) });
        } else {
            self.parse_inline(data, ci, base, j, le, false);
            proof {
                if plain {
                    let keep = keep_count(start.stack@, col as int);
                    let ends = close_events(start.stack@.subrange(keep, start.stack@.len() as int), span_range(base, i as int, i as int));
                    let st = seq![StreamingEvent::ElementStart { name: Some(handle(ci, i + 1, e0)), span: span_range(base, i as int, e0) }];
                    assert(j == sp0);
                    if data@[sp0] == PIPE {
                        assert(plain_heads(data@, sp0, le as int));
                        assert(false);
                    }
                    assert(plain_text(data@, sp0, le as int));
                    assert(res.0 =~= ends + st + seq![StreamingEvent::Text { content: handle(ci, sp0, le as int), span: span_range(base, sp0, le as int) }]);
                    assert(self.history@ =~= start.history@ + res.0);
                }
            }
        }
    }

    /// Settle the content base of the innermost open entry for a content line
    /// at column `col` and return how many leading columns to strip: the first
    /// content line sets the base; a line left of the base warns and lowers it;
    /// a line at or right of it is stripped by exactly the base.
    fn content_strip(&mut self, base: u64, col: usize, p: usize) -> (strip: usize)
        requires
            old(self).sound(),
            col <= p,
            old(self).mark@ <= base + p - col,
            base + p <= u64::MAX,
        ensures
            old(self).evolves(final(self)),
            final(self).mark@ <= base + p - col + strip,
            final(self).freeform == old(self).freeform,
            final(self).arrays == old(self).arrays,
            strip <= col,
            final(self).stack@.len() == old(self).stack@.len(),
            old(self).stack@.len() == 0 ==> strip == col,
            old(self).stack@.len() > 0 ==> {
                let n = old(self).stack@.len() - 1;
                let f = old(self).stack@[n];
                &&& final(self).stack@ == old(self).stack@.update(
                    n,
                    Frame { content_base: Some(strip), ..f },
                )
                &&& f.content_base is None ==> strip == col
                &&& f.content_base is Some && col >= f.content_base->0 ==> strip
                    == f.content_base->0
                &&& f.content_base is Some && col < f.content_base->0 ==> strip == col
            },
            final(self).history@ == if old(self).stack@.len() > 0 && old(self).stack@.last().content_base is Some
                && col < old(self).stack@.last().content_base->0 {
                old(self).history@.push(
                    StreamingEvent::Warning { code: ParseErrorCode::InconsistentIndent, span: span_range(base, p as int, p as int) },
                )
            } else {
                old(self).history@
            },
    {
        let n = self.stack.len();
        if n == 0 {
            return col;
        }
        let f = self.stack[n - 1];
        let strip = match f.content_base {
            None => col,
            Some(c) => if col < c {
                self.note(StreamingEvent::Warning {
                    code: ParseErrorCode::InconsistentIndent,
                    span: span_at(base, p, p),
                });
                col
            } else {
                c
            },
        };
        let ghost before = self.stack@;
        self.stack.set(n - 1, Frame { content_base: Some(strip), ..f });
        proof {
            assert(self.stack@ =~= before.update(n - 1, Frame { content_base: Some(strip), ..f }));
            assert forall|a: int, b: int| 0 <= a < b < self.stack@.len() implies self.stack@[a].base_column
                < self.stack@[b].base_column by {
                assert(self.stack@[a].base_column == before[a].base_column);
                assert(self.stack@[b].base_column == before[b].base_column);
            }
        }
        strip
    }

    /// A line inside a raw block, or a blank one there: its bytes, newline
    /// included, with the content base stripped.
    fn raw_line(&mut self, data: &[u8], ci: u32, base: u64, col: usize, p: usize, le: usize, lend: usize)
        requires
            old(self).sound(),
            col <= p <= le <= lend <= data@.len(),
            chunk_fits(data@, base),
            old(self).chunk@ == ci,
            old(self).chunk_len@ == data@.len(),
            old(self).mark@ <= base + p - col,
        ensures
            old(self).evolves(final(self)),
            final(self).mark@ <= base + lend,
            final(self).freeform == old(self).freeform,
    {
        if p == le {
            if le < lend {
                self.note(StreamingEvent::RawContent { content: slice_of(ci, le, lend), span: span_at(base, le, lend) });
            }
            return;
        }
        let strip = self.content_strip(base, col, p);
        let a = p - (col - strip);
        self.note(StreamingEvent::RawContent { content: slice_of(ci, a, lend), span: span_at(base, a, lend) });
    }

    /// One line `ls..le` of a chunk (`lend` is where the next line starts).
    /// Returns the line's column where the indentation rule applied to it:
    /// afterwards every open entry lies left of that column, but for the one
    /// that the line opened there (and those its inline heads opened further
    /// right).
    #[verifier::rlimit(100)]
    #[verifier::spinoff_prover]
    fn process_line(&mut self, data: &[u8], ci: u32, base: u64, ls: usize, le: usize, lend: usize) -> (line_col: Option<usize>)
        requires
            old(self).sound(),
            ls <= le <= lend <= data@.len(),
            chunk_fits(data@, base),
            old(self).chunk@ == ci,
            old(self).chunk_len@ == data@.len(),
            old(self).mark@ <= base + ls,
        ensures
            old(self).evolves(final(self)),
            final(self).mark@ <= base + lend,
            line_col is Some ==> (forall|i: int|
                0 <= i < final(self).stack@.len() ==> (#[trigger] final(self).stack@[i]).base_column
                    < line_col->0) || (exists|k: int|
                #[trigger] opened_at(old(self).stack@, final(self).stack@, line_col->0 as int, k)),
            !old(self).freeform && old(self).arrays == 0 && (old(self).stack@.len() == 0
                || old(self).stack@.last().kind != FrameKind::Raw) && plain_line(
                data@,
                ls as int,
                le as int,
            ) ==> {
                let r = line_result(old(self).stack@, data@, ci, base, ls as int, le as int);
                &&& final(self).history@ == old(self).history@ + r.0
                &&& final(self).stack@ == r.1
                &&& !final(self).freeform
                &&& final(self).arrays == 0
            },
    {
        reveal(line_result);
        reveal(plain_line);
        let ghost start = *self;
        let ghost plain = !start.freeform && start.arrays == 0 && (start.stack@.len() == 0
            || start.stack@.last().kind != FrameKind::Raw) && plain_line(data@, ls as int, le as int);
        let ghost res = line_result(start.stack@, data@, ci, base, ls as int, le as int);
        let ghost p0 = space_run(data@, ls as int, le as int);
        proof {
            lemma_runs_bounded(data@, ls as int, le as int);
        }
        if self.freeform {
            let p = skip_spaces(data, ls, le);
            if le - p >= 3 && data[p] == BACKTICK && data[p + 1] == BACKTICK && data[p + 2] == BACKTICK {
                if ls < p {
                    self.note(StreamingEvent::RawContent { content: slice_of(ci, ls, p), span: span_at(base, ls, p) });
                }
                self.emit(StreamingEvent::FreeformEnd { span: span_at(base, p, p + 3) });
                self.freeform = false;
            } else if ls < lend {
                self.note(StreamingEvent::RawContent { content: slice_of(ci, ls, lend), span: span_at(base, ls, lend) });
            }
            return None;
        }
        if self.arrays > 0 {
            self.continue_array(data, ci, base, ls, le);
            return None;
        }
        let (p, col, tab) = count_indent(data, ls, le);
        proof {
            if plain {
                if p0 < le {
                    assert(data@[p0] != TAB) by {
                        if plain_text(data@, p0, le as int) {
                            assert(plain_byte(data@[p0]));
                        }
                    }
                }
                if p < p0 {
                    assert(data@[p as int] == SPACE);
                }
                if p > p0 {
                    assert(data@[p0] == SPACE || data@[p0] == TAB);
                }
                assert(p == p0);
                assert forall|k: int| 0 <= k < data@.subrange(ls as int, p as int).len() implies #[trigger] data@.subrange(
                    ls as int,
                    p as int,
                )[k] == SPACE by {
                    assert(data@.subrange(ls as int, p as int)[k] == data@[ls + k]);
                }
                lemma_count_spaces_all(data@.subrange(ls as int, p as int));
                assert(col == p - ls);
                if tab is Some {
                    assert(data@[tab->0 as int] == SPACE);
                }
            }
        }
        let n = self.stack.len();
        if n > 0 && self.stack[n - 1].kind == FrameKind::Raw && (p == le || col > self.stack[n
            - 1].base_column) {
            self.raw_line(data, ci, base, col, p, le, lend);
            return None;
        }
        if p == le {
            return None;
        }
        let closed = self.close_for(col, span_at(base, ls, ls));
        let ghost k0 = start.stack@.len() - closed;
        let ghost after_close = self.stack@;
        let ghost h_close = self.history@;
        if let Some(t) = tab {
            self.note(StreamingEvent::Error { code: ParseErrorCode::NoTabs, span: span_at(base, ls, t + 1) });
        }
        let b = data[p];
        let shift = p - col;
        if b == SEMICOLON && !(le - p > 1 && data[p + 1] == LBRACE) {
            self.note(StreamingEvent::Comment { content: slice_of(ci, p + 1, le), span: span_at(base, p, le) });
            proof {
                if plain {
                    assert(self.history@ =~= start.history@ + res.0);
                }
            }
        } else if le - p >= 3 && b == BACKTICK && data[p + 1] == BACKTICK && data[p + 2] == BACKTICK {
            self.emit(StreamingEvent::FreeformStart { span: span_at(base, p, p + 3) });
            self.freeform = true;
        } else if b == PIPE && opens_element_at(data, p, le) {
            let ghost before_head = self.stack@;
            proof {
                if plain {
                    if !plain_heads(data@, p as int, le as int) {
                        if plain_text(data@, p as int, le as int) {
                            assert(plain_byte(data@[p as int]));
                        }
                        assert(false);
                    }
                }
            }
            self.parse_head(data, ci, base, shift, p, le);
            proof {
                if plain {
                    assert(self.history@ =~= start.history@ + res.0);
                }
                let k = choose|k: int| #[trigger] opened_at(before_head, self.stack@, col as int, k);
                if k < k0 {
                    assert(before_head[k].base_column < col);
                }
                assert(k == k0);
                assert forall|j: int| 0 <= j < k0 implies (#[trigger] start.stack@[j]).base_column < col by {
                    assert(after_close[j] == start.stack@[j]);
                }
                assert(before_head.take(k0) =~= start.stack@.take(k0));
                assert(opened_at(start.stack@, self.stack@, col as int, k0));
            }
        } else if b == COLON {
            self.parse_attribute(data, ci, base, p, le, true, false);
        } else if b == BANG && le - p > 1 && is_label_byte(data[p + 1]) && !inline_directive_at(data, p, le) {
            self.directive_line(data, ci, base, col, p, le);
            proof {
                assert forall|j: int| 0 <= j < k0 implies (#[trigger] start.stack@[j]).base_column < col by {
                    assert(after_close[j] == start.stack@[j]);
                }
                assert(after_close.len() == k0);
                assert(self.stack@.take(k0) =~= start.stack@.take(k0));
                assert(self.stack@[k0] == self.stack@.last());
                assert(opened_at(start.stack@, self.stack@, col as int, k0));
            }
        } else if b == AT && le - p > 1 && data[p + 1] == LBRACKET {
            match find_byte(data, p + 2, le, RBRACKET) {
                Some(e) => {
                    self.note(StreamingEvent::IdReference { id: slice_of(ci, p + 2, e), span: span_at(base, p, e + 1) });
                },
                None => {
                    self.note(StreamingEvent::Error { code: ParseErrorCode::UnclosedBracket, span: span_at(base, p, le) });
                },
            }
        } else {
            proof {
                if plain {
                    if data@[p as int] == SEMICOLON || data@[p as int] == PIPE || !plain_text(data@, p as int, le as int) {
                        if plain_heads(data@, p as int, le as int) {
                            assert(data@[p as int] == PIPE);
                        }
                        if plain_text(data@, p as int, le as int) {
                            assert(plain_byte(data@[p as int]));
                        }
                        assert(false);
                    }
                }
            }
            let strip = self.content_strip(base, col, p);
            assert forall|i: int| 0 <= i < self.stack@.len() implies (#[trigger] self.stack@[i]).base_column
                < col by {
                assert(self.stack@[i].base_column == after_close[i].base_column);
            }
            let a = p - (col - strip);
            proof {
                if plain {
                    assert forall|k: int| a <= k < le implies plain_byte(#[trigger] data@[k]) by {
                        if k < p {
                            assert(data@[k] == SPACE);
                        }
                    }
                }
            }
            self.parse_inline(data, ci, base, a, le, false);
            proof {
                if plain {
                    assert(self.history@ =~= start.history@ + res.0);
                }
            }
        }
        Some(col)
    }

    /// A block directive line `!name args` or `!ns:name args` at `p`; `!raw:kind`
    /// opens a raw block.
    fn directive_line(&mut self, data: &[u8], ci: u32, base: u64, col: usize, p: usize, le: usize)
        requires
            old(self).sound(),
            p + 1 < le <= data@.len(),
            chunk_fits(data@, base),
            old(self).chunk@ == ci,
            old(self).chunk_len@ == data@.len(),
            old(self).mark@ <= base + p,
            forall|i: int| 0 <= i < old(self).stack@.len() ==> (#[trigger] old(self).stack@[i]).base_column < col,
        ensures
            old(self).evolves(final(self)),
            final(self).mark@ <= base + le,
            final(self).freeform == old(self).freeform,
            final(self).stack@.len() == old(self).stack@.len() + 1,
            final(self).stack@.take(old(self).stack@.len() as int) == old(self).stack@,
            final(self).stack@.last().base_column == col,
    {
        let n1 = scan_label(data, p + 1, le);
        let (ns, ns_end, ne) = if n1 < le && le - n1 > 1 && data[n1] == COLON && is_label_byte(data[n1 + 1]) {
            (Some(slice_of(ci, p + 1, n1)), n1 + 1, scan_label(data, n1 + 1, le))
        } else {
            (None, p + 1, n1)
        };
        // The namespace `raw`.
        let raw = ns.is_some() && n1 - p == 4 && data[p + 1] == 114 && data[p + 2] == 97 && data[p + 3] == 119;
        let kind = if raw {
            FrameKind::Raw
        } else {
            FrameKind::Directive
        };
        self.open_frame(
            Frame { kind, name: Some(slice_of(ci, ns_end, ne)), base_column: col, content_base: None },
            StreamingEvent::DirectiveStart { name: slice_of(ci, ns_end, ne), namespace: ns, span: span_at(base, p, ne) },
        );
        if !raw {
            let a = skip_spaces(data, ne, le);
            self.text(data, ci, base, a, le);
        }
    }

    /// At the end of input: close every open entry and an open freeform block.
    fn close_all(&mut self, at: Span)
        requires
            old(self).sound(),
            at.start >= old(self).mark@,
        ensures
            old(self).evolves(final(self)),
            final(self).stack@.len() == 0,
            final(self).arrays == 0,
            !final(self).freeform,
            final(self).mark@ <= at.start,
            !old(self).freeform && old(self).arrays == 0 ==> final(self).history@ == old(self).history@
                + close_events(old(self).stack@, at),
    {
        let ghost start = *self;
        if self.arrays > 0 {
            self.note(StreamingEvent::Error { code: ParseErrorCode::UnclosedArray, span: at });
        }
        while self.arrays > 0
            invariant
                start.evolves(self),
                self.mark@ <= at.start,
                at.start >= start.mark@,
                self.freeform == start.freeform,
                self.stack@ == start.stack@,
                start.arrays == 0 ==> self.history@ == start.history@,
            decreases self.arrays,
        {
            self.emit(StreamingEvent::ArrayEnd { span: at });
            self.arrays = self.arrays - 1;
        }
        proof {
            lemma_keep_count_bounds(start.stack@, 0);
            assert(start.stack@.subrange(0, start.stack@.len() as int) =~= start.stack@);
        }
        self.close_for(0, at);
        assert(self.stack@.len() == 0) by {
            if self.stack@.len() > 0 {
                assert(self.stack@[0].base_column < 0);
            }
        }
        if self.freeform {
            self.note(StreamingEvent::Error { code: ParseErrorCode::UnclosedFreeform, span: at });
            self.emit(StreamingEvent::FreeformEnd { span: at });
            self.freeform = false;
        }
    }

    /// Hand out the oldest queued event.
    fn take_next(&mut self) -> (r: Option<StreamingEvent>)
        requires
            old(self).wf(),
        ensures
            final(self).wf(),
            final(self).history@ == old(self).history@,
            final(self).stack@ == old(self).stack@,
            final(self).freeform == old(self).freeform,
            final(self).arrays == old(self).arrays,
            final(self).mark@ == old(self).mark@,
            old(self).out@.len() == 0 ==> r is None && final(self).flushed@ == old(self).flushed@,
            old(self).out@.len() > 0 ==> r == Some(old(self).history@[old(self).flushed@ as int])
                && final(self).flushed@ == old(self).flushed@ + 1,
            final(self).out@.len() == if old(self).out@.len() > 0 {
                old(self).out@.len() - 1
            } else {
                0
            },
    {
        let r = self.out.pop_front();
        if r.is_some() {
            self.flushed = Ghost(self.flushed@ + 1);
            assert(self.out@ =~= self.history@.skip(self.flushed@ as int));
        }
        r
    }

    /// The indentation rule: while the innermost open entry begins at or right
    /// of `col`, close it. Returns the number of entries closed.
    fn close_for(&mut self, col: usize, at: Span) -> (closed: usize)
        requires
            old(self).sound(),
            at.start >= old(self).mark@,
        ensures
            old(self).evolves(final(self)),
            final(self).mark@ <= at.start,
            final(self).freeform == old(self).freeform,
            final(self).arrays == old(self).arrays,
            closed <= old(self).stack@.len(),
            final(self).stack@ == old(self).stack@.take(old(self).stack@.len() - closed),
            forall|i: int|
                old(self).stack@.len() - closed <= i < old(self).stack@.len() ==> col
                    <= #[trigger] old(self).stack@[i].base_column,
            forall|i: int| 0 <= i < final(self).stack@.len() ==> (#[trigger] final(self).stack@[i]).base_column < col,
            final(self).history@ == old(self).history@ + final(self).history@.skip(
                old(self).history@.len() as int,
            ),
            closed == old(self).stack@.len() - keep_count(old(self).stack@, col as int),
            final(self).history@ == old(self).history@ + close_events(
                old(self).stack@.subrange(
                    keep_count(old(self).stack@, col as int),
                    old(self).stack@.len() as int,
                ),
                at,
            ),
    {
        let ghost start = *self;
        let mut closed: usize = 0;
        let n0 = self.stack.len();
        while self.stack.len() > 0 && col <= self.stack[self.stack.len() - 1].base_column
            invariant
                start.evolves(self),
                self.mark@ <= at.start,
                at.start >= start.mark@,
                self.freeform == start.freeform,
                self.arrays == start.arrays,
                closed <= start.stack@.len(),
                n0 == start.stack@.len(),
                keep_count(start.stack@, col as int) == keep_count(self.stack@, col as int),
                self.history@ == start.history@ + close_events(
                    start.stack@.subrange(start.stack@.len() - closed, start.stack@.len() as int),
                    at,
                ),
                self.stack@ == start.stack@.take(start.stack@.len() - closed),
                forall|i: int|
                    start.stack@.len() - closed <= i < start.stack@.len() ==> col
                        <= #[trigger] start.stack@[i].base_column,
                self.history@ == start.history@ + self.history@.skip(start.history@.len() as int),
            decreases self.stack.len(),
        {
            assert(self.stack@.len() == start.stack@.len() - closed);
            let ghost s0 = self.stack@;
            let ghost h0 = self.history@;
            let ghost old_closed = closed as int;
            let top = self.stack.pop().unwrap();
            match top.kind {
                FrameKind::Element => self.emit(StreamingEvent::ElementEnd { span: at }),
                _ => self.emit(StreamingEvent::DirectiveEnd { span: at }),
            }
            closed = closed + 1;
            proof {
                assert(self.history@ == h0.push(end_event(top, at)));
                assert(keep_count(s0, col as int) == keep_count(s0.drop_last(), col as int));
                assert(s0.drop_last() =~= self.stack@);
                let n0i = start.stack@.len() as int;
                let sub_new = start.stack@.subrange(n0i - closed, n0i);
                let sub_old = start.stack@.subrange(n0i - old_closed, n0i);
                assert(sub_new.drop_first() =~= sub_old);
                assert(sub_new.first() == top);
                assert(close_events(sub_new, at) == close_events(sub_old, at) + seq![end_event(top, at)]);
                assert(self.history@ =~= start.history@ + close_events(sub_new, at));
                assert(self.stack@ =~= start.stack@.take(start.stack@.len() - closed));
                assert(self.history@ =~= start.history@ + self.history@.skip(start.history@.len() as int));
            }
        }
        proof {
            assert(keep_count(self.stack@, col as int) == self.stack@.len());
            if self.stack@.len() > 0 {
                assert forall|i: int| 0 <= i < self.stack@.len() implies (#[trigger] self.stack@[i]).base_column < col by {
                    if i < self.stack@.len() - 1 {
                        assert(self.stack@[i].base_column < self.stack@[self.stack@.len() - 1].base_column);
                    }
                }
            }
        }
        closed
    }

    /// Open a new entry whose base is `col`; it must lie right of every open entry.
    fn open_frame(&mut self, frame: Frame, ev: StreamingEvent)
        requires
            old(self).sound(),
            span_of(ev).start >= old(self).mark@,
            ev is ElementStart || ev is DirectiveStart,
            old(self).local(ev),
            forall|i: int| 0 <= i < old(self).stack@.len() ==> (#[trigger] old(self).stack@[i]).base_column < frame.base_column,
        ensures
            old(self).evolves(final(self)),
            final(self).stack@ == old(self).stack@.push(frame),
            final(self).mark@ == span_of(ev).start,
            final(self).history@ == old(self).history@.push(ev),
            final(self).freeform == old(self).freeform,
            final(self).arrays == old(self).arrays,
    {
        self.emit(ev);
        self.stack.push(frame);
    }
}

proof fn lemma_total_len_step(s: Seq<Seq<u8>>, i: int)
    requires
        0 <= i < s.len(),
    ensures
        total_len(s.take(i + 1)) == total_len(s.take(i)) + s[i].len(),
{
    assert(s.take(i + 1).drop_last() =~= s.take(i));
}

proof fn lemma_total_len_prefix(s: Seq<Seq<u8>>, i: int)
    requires
        0 <= i <= s.len(),
    ensures
        total_len(s.take(i)) <= total_len(s),
    decreases s.len(),
{
    if i == s.len() {
        assert(s.take(i) =~= s);
    } else {
        assert(s.take(i) =~= s.drop_last().take(i));
        lemma_total_len_prefix(s.drop_last(), i);
    }
}

/// The concatenation of a sequence of byte strings.
pub open spec fn joined(chunks: Seq<Seq<u8>>) -> Seq<u8>
    decreases chunks.len(),
{
    if chunks.len() == 0 {
        Seq::empty()
    } else {
        joined(chunks.drop_last()) + chunks.last()
    }
}

proof fn lemma_joined_total(chunks: Seq<Seq<u8>>)
    requires
        chunks.len() >= 1,
    ensures
        joined(chunks.skip(1)).len() + chunks[0].len() == total_len(chunks),
    decreases chunks.len(),
{
    if chunks.len() > 1 {
        assert(chunks.drop_last().skip(1) =~= chunks.skip(1).drop_last());
        assert(chunks.skip(1).last() == chunks.last());
        assert(chunks.drop_last()[0] == chunks[0]);
        lemma_joined_total(chunks.drop_last());
        assert(joined(chunks.skip(1)) == joined(chunks.skip(1).drop_last()) + chunks.skip(1).last());
        assert(total_len(chunks) == total_len(chunks.drop_last()) + chunks.last().len());
    } else {
        assert(chunks.last() == chunks[0]);
        assert(total_len(chunks) == total_len(chunks.drop_last()) + chunks.last().len());
        assert(chunks.skip(1) =~= Seq::<Seq<u8>>::empty());
        assert(chunks.drop_last() =~= Seq::<Seq<u8>>::empty());
    }
}

proof fn lemma_joined_push(chunks: Seq<Seq<u8>>, c: Seq<u8>)
    requires
        chunks.len() >= 1,
    ensures
        joined(chunks.push(c).skip(1)) == joined(chunks.skip(1)) + c,
{
    assert(chunks.push(c).skip(1).drop_last() =~= chunks.skip(1));
}

/// Handles of a line of chunk `ci` are valid once that chunk has length `n`.
proof fn lemma_line_handles_valid(chunks: Seq<Seq<u8>>, ci: u32, n: nat, e: StreamingEvent)
    requires
        1 <= ci < chunks.len(),
        chunks[ci as int].len() == n,
        chunks[0].len() == KEYS_LEN,
        all_handles(e, in_line(ci, n)),
    ensures
        handles_valid(e, chunks),
{
    assert forall|s: ChunkSlice| #[trigger] in_line(ci, n)(s) implies valid_in(chunks)(s) by {}
    lemma_all_handles_weaken(e, in_line(ci, n), valid_in(chunks));
}

/// Appending a chunk keeps every handle valid.
proof fn lemma_handles_grow(chunks: Seq<Seq<u8>>, c: Seq<u8>, e: StreamingEvent)
    requires
        handles_valid(e, chunks),
    ensures
        handles_valid(e, chunks.push(c)),
{
    assert forall|s: ChunkSlice| #[trigger] valid_in(chunks)(s) implies valid_in(chunks.push(c))(s) by {
        assert(chunks.push(c)[s.chunk_idx as int] == chunks[s.chunk_idx as int]);
    }
    lemma_all_handles_weaken(e, valid_in(chunks), valid_in(chunks.push(c)));
}

/// The reserved key names `$id` and `$class` that identity attributes refer to.
pub open spec fn key_names() -> Seq<u8> {
    seq![36u8, 105u8, 100u8, 36u8, 99u8, 108u8, 97u8, 115u8, 115u8]
}

/// A streaming UDON parser: input is fed in chunks, events are read one at a time.
///
/// Chunk 0 of the arena holds the reserved key names; input chunks follow, each
/// ending at a line break (the last one may end at the end of input). Spans are
/// offsets into the input alone.
pub struct StreamingParser {
    arena: ChunkArena,
    ring: EventRing,
    engine: Engine,
    tail: Vec<u8>,
    line_chunk: usize,
    line_pos: usize,
    line_base: u64,
    finished: bool,
    closed: bool,
    delivered: Ghost<Seq<StreamingEvent>>,
    log: Ghost<Seq<LineRecord>>,
}

impl StreamingParser {
    /// Every event produced so far, in order: those read, those in the ring,
    /// and those waiting for room in the ring.
    pub closed spec fn events(&self) -> Seq<StreamingEvent> {
        self.engine.history@
    }

    /// The events handed out by `read`, in order.
    pub closed spec fn delivered(&self) -> Seq<StreamingEvent> {
        self.delivered@
    }

    /// The events waiting in the ring.
    pub closed spec fn queued(&self) -> Seq<StreamingEvent> {
        self.ring@
    }

    /// Capacity of the ring.
    pub closed spec fn ring_capacity(&self) -> nat {
        self.ring.cap()
    }

    /// The chunks held by the arena.
    pub closed spec fn chunks(&self) -> Seq<Seq<u8>> {
        self.arena@
    }

    /// Bytes fed but not yet placed in the arena (an unfinished line).
    pub closed spec fn buffered(&self) -> Seq<u8> {
        self.tail@
    }

    /// The stream offset where the input ended, once it has.
    pub closed spec fn end_offset(&self) -> u64 {
        self.line_base
    }

    /// What the parser did with each line it has parsed, in order.
    pub closed spec fn lines(&self) -> Seq<LineRecord> {
        self.log@
    }

    /// The open entries of the indentation stack, outermost first.
    pub closed spec fn open_entries(&self) -> Seq<Frame> {
        self.engine.stack@
    }

    /// Whether every complete line in the arena has been parsed and every
    /// event produced so far has entered the ring.
    pub closed spec fn caught_up(&self) -> bool {
        self.line_chunk == self.arena@.len() && self.engine.out@.len() == 0
    }

    /// Whether `finish` has been called.
    pub closed spec fn is_finished(&self) -> bool {
        self.finished
    }

    /// Whether all input has been parsed and every open structure closed.
    pub closed spec fn is_done(&self) -> bool {
        self.closed
    }

    /// The parser's invariant at every public boundary: besides the internal
    /// invariant, events wait outside the ring only while the ring is full.
    pub closed spec fn wf(&self) -> bool {
        &&& self.inv()
        &&& self.engine.out@.len() > 0 ==> self.ring@.len() == self.ring.cap()
    }

    closed spec fn inv(&self) -> bool {
        &&& self.arena.wf()
        &&& self.ring.wf()
        &&& self.engine.wf()
        &&& self.arena@.len() >= 1
        &&& self.arena@[0] == key_names()
        &&& self.arena@.len() <= u32::MAX - 1
        &&& forall|i: int| 0 <= i < self.arena@.len() ==> (#[trigger] self.arena@[i]).len() <= u32::MAX
        &&& self.arena.total() + self.tail@.len() <= u64::MAX
        &&& self.tail@.len() <= u32::MAX
        &&& 1 <= self.line_chunk <= self.arena@.len()
        &&& self.line_chunk < self.arena@.len() ==> self.line_pos <= self.arena@[self.line_chunk as int].len()
            && self.line_base + KEYS_LEN == self.arena.offset_of(self.line_chunk as int)
        &&& self.line_chunk == self.arena@.len() ==> self.line_pos == 0 && self.line_base + KEYS_LEN
            == self.arena.total()
        &&& self.engine.mark@ <= self.line_base + self.line_pos
        &&& self.delivered@ + self.ring@ == self.engine.history@.take(self.engine.flushed@ as int)
        &&& forall|i: int|
            0 <= i < self.engine.history@.len() ==> #[trigger] handles_valid(
                self.engine.history@[i],
                self.arena@,
            )
        &&& self.finished ==> self.tail@.len() == 0
        &&& log_ok(self.arena@, self.log@, self.engine.history@)
        &&& forall|i: int| 1 <= i < self.arena@.len() ==> (#[trigger] self.arena@[i]).len() > 0
        &&& self.log@.len() == 0 ==> self.line_chunk == 1 && self.line_pos == 0
        &&& self.log@.len() > 0 ==> (self.line_chunk == self.log@.last().chunk && self.line_pos
            == self.log@.last().next) || (self.log@.last().next == self.arena@[self.log@.last().chunk].len()
            && self.line_chunk == self.log@.last().chunk + 1 && self.line_pos == 0)
        &&& !self.closed ==> self.engine.history@.len() == if self.log@.len() == 0 {
            0
        } else {
            self.log@.last().last_event
        }
        &&& !self.closed ==> self.engine.stack@ == if self.log@.len() == 0 {
            Seq::<Frame>::empty()
        } else {
            self.log@.last().after
        }
        &&& !self.closed && plain_upto(self.arena@, self.log@, self.log@.len() as int) ==> !self.engine.freeform
            && self.engine.arrays == 0 && no_raw(self.engine.stack@)
        &&& self.closed && plain_upto(self.arena@, self.log@, self.log@.len() as int) ==> self.engine.history@.skip(
            if self.log@.len() == 0 {
                0
            } else {
                self.log@.last().last_event
            },
        ) == close_events(
            if self.log@.len() == 0 {
                Seq::<Frame>::empty()
            } else {
                self.log@.last().after
            },
            span_range(self.line_base, 0, 0),
        )
        &&& self.closed ==> self.finished && self.line_chunk == self.arena@.len()
            && self.engine.stack@.len() == 0 && !self.engine.freeform && self.engine.arrays == 0
    }

    /// A parser whose ring holds `ring_capacity` events, rounded up to a power of two.
    pub fn new(ring_capacity: usize) -> (r: StreamingParser)
        requires
            ring_capacity <= MAX_RING_CAPACITY,
        ensures
            r.wf(),
            r.events() == Seq::<StreamingEvent>::empty(),
            r.delivered() == Seq::<StreamingEvent>::empty(),
            r.chunks() == seq![key_names()],
            r.input() == Seq::<u8>::empty(),
            r.buffered() == Seq::<u8>::empty(),
            !r.is_finished(),
            crate::ring::ring_capacity_for(ring_capacity as nat, r.ring_capacity()),
    {
        let mut arena = ChunkArena::new();
        arena.push(vec![36u8, 105u8, 100u8, 36u8, 99u8, 108u8, 97u8, 115u8, 115u8]);
        let r = StreamingParser {
            arena,
            ring: EventRing::new(ring_capacity),
            engine: Engine::new(),
            tail: Vec::new(),
            line_chunk: 1,
            line_pos: 0,
            line_base: 0,
            finished: false,
            closed: false,
            delivered: Ghost(Seq::empty()),
            log: Ghost(Seq::empty()),
        };
        proof {
            assert(r.arena@ =~= seq![key_names()]);
            assert(r.arena@[0].len() == KEYS_LEN);
            assert(r.tail@.len() == 0);
            assert(r.arena.total() == KEYS_LEN) by {
                reveal_with_fuel(total_len, 2);
                assert(r.arena@.drop_last() =~= Seq::<Seq<u8>>::empty());
            }
            assert(r.delivered@ + r.ring@ =~= r.engine.history@.take(0));
            reveal(log_ok);
            reveal(plain_upto);
            assert(log_ok(r.arena@, r.log@, r.engine.history@));
            assert(no_raw(r.engine.stack@));
            assert(r.engine.history@.len() == 0);
            assert(r.engine.stack@ == Seq::<Frame>::empty());
            assert(r.arena@.skip(1) =~= Seq::<Seq<u8>>::empty());
            assert(r.tail@ =~= Seq::<u8>::empty());
            assert(r.input() =~= Seq::<u8>::empty());
        }
        r
    }

    /// The arena that the events' handles refer to.
    pub fn arena(&self) -> (r: &ChunkArena)
        ensures
            r@ == self.chunks(),
    {
        &self.arena
    }

    /// Everything fed so far: the input chunks of the arena, then the bytes
    /// of the unfinished line.
    pub closed spec fn input(&self) -> Seq<u8> {
        joined(self.arena@.skip(1)) + self.tail@
    }

    /// Append `bytes` to the input and parse every complete line that the ring
    /// has room for; an unfinished last line waits for more input or `finish`.
    pub fn feed(&mut self, bytes: &[u8]) -> (r: crate::event::FeedResult)
        requires
            old(self).wf(),
            !old(self).is_finished(),
            old(self).buffered().len() + bytes@.len() <= u32::MAX,
            old(self).input().len() + bytes@.len() + KEYS_LEN <= u64::MAX,
            old(self).chunks().len() < u32::MAX - 2,
        ensures
            final(self).wf(),
            final(self).input() == old(self).input() + bytes@,
            !final(self).is_finished(),
            final(self).delivered() == old(self).delivered(),
            is_prefix(old(self).events(), final(self).events()),
            final(self).ring_capacity() == old(self).ring_capacity(),
            r.bytes_consumed == bytes@.len(),
            r.buffer_full == (final(self).queued().len() == final(self).ring_capacity()),
            final(self).caught_up() || r.buffer_full,
            forall|k: int| 0 <= k < final(self).buffered().len() ==> #[trigger] final(self).buffered()[k] != NEWLINE,
    {
        proof {
            self.arena.lemma_total();
            lemma_joined_total(self.arena@);
        }
        let ghost old_input = self.input();
        let mut i: usize = 0;
        while i < bytes.len()
            invariant
                self.inv(),
                self.wf(),
                i <= bytes@.len(),
                self.tail@ == old(self).tail@ + bytes@.take(i as int),
                self.arena@ == old(self).arena@,
                self.arena.total() == old(self).arena.total(),
                old(self).tail@.len() + bytes@.len() <= u32::MAX,
                self.arena.total() + old(self).tail@.len() + bytes@.len() <= u64::MAX,
                !self.finished,
                self.delivered@ == old(self).delivered@,
                self.engine == old(self).engine,
                self.ring == old(self).ring,
                self.line_chunk == old(self).line_chunk,
                self.line_pos == old(self).line_pos,
                self.line_base == old(self).line_base,
                self.closed == old(self).closed,
            decreases bytes@.len() - i,
        {
            self.tail.push(bytes[i]);
            i = i + 1;
            assert(self.tail@ =~= old(self).tail@ + bytes@.take(i as int));
        }
        assert(bytes@.take(bytes@.len() as int) =~= bytes@);
        let n = self.tail.len();
        let mut k = n;
        while k > 0 && self.tail[k - 1] != NEWLINE
            invariant
                k <= n == self.tail@.len(),
                forall|q: int| k <= q < n ==> #[trigger] self.tail@[q] != NEWLINE,
            decreases k,
        {
            k = k - 1;
        }
        if k > 0 {
            let mut chunk: Vec<u8> = Vec::with_capacity(k);
            let mut j: usize = 0;
            while j < k
                invariant
                    j <= k <= n == self.tail@.len(),
                    chunk@ == self.tail@.take(j as int),
                decreases k - j,
            {
                chunk.push(self.tail[j]);
                j = j + 1;
                assert(chunk@ =~= self.tail@.take(j as int));
            }
            let mut rest: Vec<u8> = Vec::new();
            while j < n
                invariant
                    k <= j <= n == self.tail@.len(),
                    rest@ == self.tail@.subrange(k as int, j as int),
                decreases n - j,
            {
                rest.push(self.tail[j]);
                j = j + 1;
                assert(rest@ =~= self.tail@.subrange(k as int, j as int));
            }
            let ghost whole = self.tail@;
            let ghost before = self.arena@;
            assert(chunk@ + rest@ =~= whole);
            self.tail = rest;
            let ghost new_chunk = chunk@;
            self.arena.push(chunk);
            proof {
                lemma_log_grow_chunks(before, new_chunk, self.log@, self.engine.history@);
                assert(self.arena@ == before.push(new_chunk));
                assert(new_chunk.len() > 0);
                assert forall|i: int| 1 <= i < self.arena@.len() implies (#[trigger] self.arena@[i]).len() > 0 by {
                    if i < before.len() {
                        assert(self.arena@[i] == before[i]);
                    }
                }
                if self.log@.len() > 0 {
                    assert(self.arena@[self.log@.last().chunk] == before[self.log@.last().chunk]) by {
                        reveal(log_ok);
                        assert(self.log@.last() == self.log@[self.log@.len() - 1]);
                    }
                }
                assert forall|e: int| 0 <= e < self.engine.history@.len() implies #[trigger] handles_valid(
                    self.engine.history@[e],
                    self.arena@,
                ) by {
                    lemma_handles_grow(before, chunk@, self.engine.history@[e]);
                }
                lemma_joined_push(before, chunk@);
                assert(self.input() =~= old_input + bytes@);
                self.arena.lemma_total();
                assert forall|c: int| 0 <= c < self.arena@.len() implies (#[trigger] self.arena@[c]).len() <= u32::MAX by {
                    if c < before.len() {
                        assert(self.arena@[c] == before[c]);
                    }
                }
                if self.line_chunk < before.len() {
                    assert(self.arena@.take(self.line_chunk as int) =~= before.take(self.line_chunk as int));
                } else {
                    assert(self.arena@.take(self.line_chunk as int) =~= before);
                }
            }
        }
        let written = self.drive();
        crate::event::FeedResult {
            bytes_consumed: bytes.len(),
            events_written: written,
            buffer_full: self.ring.is_full(),
        }
    }

    /// Treat the input fed so far as complete: parse the last line and close
    /// every open structure, as far as the ring has room.
    pub fn finish(&mut self) -> (r: crate::event::FeedResult)
        requires
            old(self).wf(),
            old(self).chunks().len() < u32::MAX - 2,
        ensures
            final(self).wf(),
            final(self).is_finished(),
            final(self).input() == old(self).input(),
            final(self).delivered() == old(self).delivered(),
            is_prefix(old(self).events(), final(self).events()),
            final(self).ring_capacity() == old(self).ring_capacity(),
            final(self).is_done() || final(self).queued().len() == final(self).ring_capacity(),
            r.bytes_consumed == 0,
            r.buffer_full == (final(self).queued().len() == final(self).ring_capacity()),
    {
        if !self.finished {
            if self.tail.len() > 0 {
                proof {
                    self.arena.lemma_total();
                }
                let ghost before = self.arena@;
                let ghost t = self.tail@;
                let mut last: Vec<u8> = Vec::new();
                std::mem::swap(&mut last, &mut self.tail);
                self.arena.push(last);
                proof {
                    lemma_log_grow_chunks(before, t, self.log@, self.engine.history@);
                    assert(self.arena@ == before.push(t));
                    assert forall|i: int| 1 <= i < self.arena@.len() implies (#[trigger] self.arena@[i]).len() > 0 by {
                        if i < before.len() {
                            assert(self.arena@[i] == before[i]);
                        }
                    }
                    if self.log@.len() > 0 {
                        assert(self.arena@[self.log@.last().chunk] == before[self.log@.last().chunk]) by {
                            reveal(log_ok);
                            assert(self.log@.last() == self.log@[self.log@.len() - 1]);
                        }
                    }
                    assert forall|e: int| 0 <= e < self.engine.history@.len() implies #[trigger] handles_valid(
                        self.engine.history@[e],
                        self.arena@,
                    ) by {
                        lemma_handles_grow(before, t, self.engine.history@[e]);
                    }
                    lemma_joined_push(before, t);
                    assert(self.input() =~= old(self).input());
                    assert forall|c: int| 0 <= c < self.arena@.len() implies (#[trigger] self.arena@[c]).len() <= u32::MAX by {
                        if c < before.len() {
                            assert(self.arena@[c] == before[c]);
                        }
                    }
                    if self.line_chunk < before.len() {
                        assert(self.arena@.take(self.line_chunk as int) =~= before.take(self.line_chunk as int));
                    } else {
                        assert(self.arena@.take(self.line_chunk as int) =~= before);
                    }
                }
            }
            self.finished = true;
        }
        let written = self.drive();
        crate::event::FeedResult {
            bytes_consumed: 0,
            events_written: written,
            buffer_full: self.ring.is_full(),
        }
    }

    /// Take the next event, if one is ready; parsing resumes where the ring
    /// had stopped it.
    pub fn read(&mut self) -> (r: Option<StreamingEvent>)
        requires
            old(self).wf(),
        ensures
            final(self).wf(),
            old(self).queued().len() == 0 ==> r is None && final(self).delivered() == old(
                self,
            ).delivered(),
            old(self).queued().len() > 0 ==> r == Some(old(self).queued()[0])
                && final(self).delivered() == old(self).delivered().push(r->0),
            final(self).input() == old(self).input(),
            final(self).is_finished() == old(self).is_finished(),
            old(self).is_done() ==> final(self).is_done(),
            is_prefix(old(self).events(), final(self).events()),
            final(self).ring_capacity() == old(self).ring_capacity(),
            final(self).caught_up() || final(self).queued().len() == final(self).ring_capacity(),
            final(self).is_finished() ==> final(self).is_done() || final(self).queued().len()
                == final(self).ring_capacity(),
    {
        let r = self.ring.pop();
        if r.is_some() {
            let ghost e = r->0;
            self.delivered = Ghost(self.delivered@.push(e));
            proof {
                assert(self.delivered@ + self.ring@ =~= old(self).delivered@ + old(self).ring@);
            }
        }
        self.drive();
        r
    }

    /// The next event, left in place.
    pub fn peek(&self) -> (r: Option<&StreamingEvent>)
        requires
            self.wf(),
        ensures
            self.queued().len() == 0 ==> r is None,
            self.queued().len() > 0 ==> r == Some(&self.queued()[0]),
    {
        self.ring.peek()
    }

    /// Forget all input, events and state; the ring keeps its capacity.
    #[verifier::rlimit(100)]
    #[verifier::spinoff_prover]
    pub fn reset(&mut self)
        requires
            old(self).wf(),
        ensures
            final(self).wf(),
            final(self).events() == Seq::<StreamingEvent>::empty(),
            final(self).delivered() == Seq::<StreamingEvent>::empty(),
            final(self).chunks() == seq![key_names()],
            final(self).input() == Seq::<u8>::empty(),
            final(self).buffered() == Seq::<u8>::empty(),
            !final(self).is_finished(),
            final(self).ring_capacity() == old(self).ring_capacity(),
    {
        self.arena.clear();
        self.arena.push(vec![36u8, 105u8, 100u8, 36u8, 99u8, 108u8, 97u8, 115u8, 115u8]);
        self.ring.clear();
        self.engine = Engine::new();
        self.tail.clear();
        assert(self.tail@ =~= Seq::<u8>::empty());
        self.line_chunk = 1;
        self.line_pos = 0;
        self.line_base = 0;
        self.finished = false;
        self.closed = false;
        self.delivered = Ghost(Seq::empty());
        self.log = Ghost(Seq::empty());
        proof {
            assert(self.arena@ =~= seq![key_names()]);
            assert(self.arena@[0].len() == KEYS_LEN);
            assert(self.arena.total() == KEYS_LEN) by {
                reveal_with_fuel(total_len, 2);
                assert(self.arena@.drop_last() =~= Seq::<Seq<u8>>::empty());
            }
            assert(self.delivered@ + self.ring@ =~= self.engine.history@.take(0));
            reveal(log_ok);
            reveal(plain_upto);
            assert(log_ok(self.arena@, self.log@, self.engine.history@));
            assert(no_raw(self.engine.stack@));
            assert(self.engine.history@.len() == 0);
            assert(self.engine.stack@ == Seq::<Frame>::empty());
            assert(self.engine.wf());
            assert(self.arena.wf());
            assert(self.ring.wf());
            assert(self.engine.out@.len() == 0);
            assert(self.log@.len() == 0);
            assert(self.arena@.skip(1) =~= Seq::<Seq<u8>>::empty());
            assert(self.input() =~= Seq::<u8>::empty());
        }
    }

    /// Parse as many complete lines as the ring has room for.
    fn drive(&mut self) -> (written: usize)
        requires
            old(self).inv(),
        ensures
            final(self).wf(),
            final(self).delivered() == old(self).delivered(),
            is_prefix(old(self).events(), final(self).events()),
            final(self).chunks() == old(self).chunks(),
            final(self).buffered() == old(self).buffered(),
            final(self).is_finished() == old(self).is_finished(),
            old(self).is_done() ==> final(self).is_done(),
            final(self).is_finished() ==> final(self).is_done() || final(self).queued().len()
                == final(self).ring_capacity(),
            final(self).ring_capacity() == old(self).ring_capacity(),
            final(self).input() == old(self).input(),
            final(self).caught_up() || final(self).queued().len() == final(self).ring_capacity(),
    {
        let mut written: usize = 0;
        loop
            invariant
                self.inv(),
                self.delivered@ == old(self).delivered@,
                is_prefix(old(self).engine.history@, self.engine.history@),
                self.arena@ == old(self).arena@,
                self.tail@ == old(self).tail@,
                self.finished == old(self).finished,
                old(self).closed ==> self.closed,
                self.ring.cap() == old(self).ring.cap(),
            ensures
                self.finished ==> self.closed || self.ring@.len() == self.ring.cap(),
                self.engine.out@.len() > 0 ==> self.ring@.len() == self.ring.cap(),
                (self.line_chunk == self.arena@.len() && self.engine.out@.len() == 0)
                    || self.ring@.len() == self.ring.cap(),
            decreases
                self.arena@.len() - self.line_chunk,
                if self.line_chunk < self.arena@.len() {
                    self.arena@[self.line_chunk as int].len() - self.line_pos
                } else {
                    0
                },
                if self.closed {
                    0int
                } else {
                    1int
                },
        {
            let ghost lc = self.line_chunk;
            let ghost lp = self.line_pos;
            let ghost cl = self.closed;
            while self.engine.out.len() > 0 && !self.ring.is_full()
                invariant
                    self.line_chunk == lc,
                    self.line_pos == lp,
                    self.closed == cl,
                    self.inv(),
                    self.delivered@ == old(self).delivered@,
                    is_prefix(old(self).engine.history@, self.engine.history@),
                    self.arena@ == old(self).arena@,
                    self.tail@ == old(self).tail@,
                    self.finished == old(self).finished,
                    old(self).closed ==> self.closed,
                    self.ring.cap() == old(self).ring.cap(),
                decreases self.engine.out@.len(),
            {
                let ghost f = self.engine.flushed@;
                let ghost h = self.engine.history@;
                let ev = self.engine.take_next().unwrap();
                self.ring.push(ev);
                if written < usize::MAX {
                    written = written + 1;
                }
                proof {
                    assert(h.take(f as int + 1) =~= h.take(f as int).push(h[f as int]));
                    assert(self.delivered@ + self.ring@ =~= self.engine.history@.take(self.engine.flushed@ as int));
                }
            }
            if self.engine.out.len() > 0 {
                break;
            }
            if self.line_chunk < self.arena.len() {
                let ci = self.line_chunk as u32;
                let chunk = self.arena.get(ci).unwrap();
                let data = chunk.data();
                let base = self.line_base;
                proof {
                    self.arena.lemma_total();
                    lemma_total_len_step(self.arena@, self.line_chunk as int);
                    lemma_total_len_prefix(self.arena@, self.line_chunk as int + 1);
                    assert(self.arena@[self.line_chunk as int].len() <= u32::MAX);
                }
                assert(data@.len() == self.arena@[self.line_chunk as int].len());
                if self.line_pos < data.len() {
                    let ls = self.line_pos;
                    let found = find_byte(data, ls, data.len(), NEWLINE);
                    let (le, lend) = match found {
                        Some(k) => (if k > ls && data[k - 1] == CR {
                            k - 1
                        } else {
                            k
                        }, k + 1),
                        None => (data.len(), data.len()),
                    };
                    proof {
                        match found {
                            Some(k) => lemma_newline_from(data@, ls as int, k as int),
                            None => lemma_newline_from(data@, ls as int, data@.len() as int),
                        }
                    }
                    let ghost h = self.engine.history@;
                    let ghost st0 = self.engine.stack@;
                    let ghost log0 = self.log@;
                    let ghost plain_before = plain_upto(self.arena@, log0, log0.len() as int);
                    self.engine.chunk = Ghost(ci);
                    self.engine.chunk_len = Ghost(data@.len());
                    self.engine.line_start = Ghost(h.len());
                    self.engine.process_line(data, ci, base, ls, le, lend);
                    self.line_pos = lend;
                    let ghost rec = LineRecord {
                        chunk: ci as int,
                        base,
                        start: ls as int,
                        end: le as int,
                        next: lend as int,
                        before: st0,
                        after: self.engine.stack@,
                        first_event: h.len() as int,
                        last_event: self.engine.history@.len() as int,
                    };
                    proof {
                        let chunks = self.arena@;
                        assert(data@ == chunks[ci as int]);
                        if log0.len() > 0 {
                            assert(follow(chunks, log0.last()) == (ci as int, ls as int));
                        }
                        if plain_upto(chunks, log0.push(rec), log0.len() + 1int) {
                            reveal(plain_upto);
                            let r2 = log0.push(rec);
                            assert(r2[log0.len() as int] == rec);
                            assert(plain_line(chunks[r2[log0.len() as int].chunk], r2[log0.len() as int].start, r2[log0.len() as int].end));
                            assert(plain_line(data@, ls as int, le as int));
                            assert(plain_upto(chunks, log0, log0.len() as int)) by {
                                assert forall|q: int| 0 <= q < log0.len() implies #[trigger] plain_line(chunks[log0[q].chunk], log0[q].start, log0[q].end) by {
                                    assert(log0.push(rec)[q] == log0[q]);
                                }
                            }
                            assert(st0.len() == 0 || st0.last().kind != FrameKind::Raw);
                            assert(self.engine.history@.subrange(h.len() as int, self.engine.history@.len() as int)
                                =~= line_result(st0, data@, ci, base, ls as int, le as int).0);
                        }
                        lemma_log_extend(chunks, log0, h, self.engine.history@, rec);
                    }
                    self.log = Ghost(self.log@.push(rec));
                    proof {
                        if plain_upto(self.arena@, self.log@, self.log@.len() as int) {
                            reveal(plain_upto);
                            let r2 = self.log@;
                            assert(r2[log0.len() as int] == rec);
                            assert(plain_line(self.arena@[r2[log0.len() as int].chunk], r2[log0.len() as int].start, r2[log0.len() as int].end));
                            assert(plain_line(data@, ls as int, le as int));
                            assert(plain_upto(self.arena@, log0, log0.len() as int)) by {
                                assert forall|q: int| 0 <= q < log0.len() implies #[trigger] plain_line(self.arena@[log0[q].chunk], log0[q].start, log0[q].end) by {
                                    assert(self.log@[q] == log0[q]);
                                }
                            }
                            lemma_line_no_raw(st0, data@, ci, base, ls as int, le as int);
                        }
                        assert(self.log@.last() == rec);
                        assert forall|i: int| 0 <= i < self.engine.history@.len() implies #[trigger] handles_valid(
                            self.engine.history@[i],
                            self.arena@,
                        ) by {
                            if i < h.len() {
                                assert(self.engine.history@[i] == h[i]);
                            } else {
                                lemma_line_handles_valid(self.arena@, ci, data@.len() as nat, self.engine.history@[i]);
                            }
                        }
                        assert(self.engine.history@.take(self.engine.flushed@ as int) =~= h.take(self.engine.flushed@ as int));
                    }
                } else {
                    proof {
                        assert(self.arena@[self.line_chunk as int].len() > 0);
                    }
                    self.line_base = self.line_base + data.len() as u64;
                    self.line_chunk = self.line_chunk + 1;
                    self.line_pos = 0;
                }
            } else if self.finished && !self.closed {
                let ghost h = self.engine.history@;
                let ghost st_end = self.engine.stack@;
                self.engine.line_start = Ghost(h.len());
                self.engine.chunk = Ghost(0);
                self.engine.chunk_len = Ghost(KEYS_LEN as nat);
                self.engine.close_all(span_at(self.line_base, 0, 0));
                self.closed = true;
                proof {
                    lemma_log_prefix(self.arena@, self.log@, h, self.engine.history@);
                    if plain_upto(self.arena@, self.log@, self.log@.len() as int) {
                        assert(self.engine.history@.skip(h.len() as int) =~= close_events(st_end, span_range(self.line_base, 0, 0)));
                    }
                    assert forall|i: int| 0 <= i < self.engine.history@.len() implies #[trigger] handles_valid(
                        self.engine.history@[i],
                        self.arena@,
                    ) by {
                        if i < h.len() {
                            assert(self.engine.history@[i] == h[i]);
                        } else {
                            let e = self.engine.history@[i];
                            assert forall|sl: ChunkSlice| #[trigger] in_line(0, KEYS_LEN as nat)(sl) implies valid_in(self.arena@)(sl) by {}
                            lemma_all_handles_weaken(e, in_line(0, KEYS_LEN as nat), valid_in(self.arena@));
                        }
                    }
                    assert(self.engine.history@.take(self.engine.flushed@ as int) =~= h.take(self.engine.flushed@ as int));
                }
            } else {
                break;
            }
        }
        written
    }
}

/// Balance: at every moment the events hold at least as many structure starts
/// as ends, and once the input is finished and closed they hold exactly as many.
pub proof fn lemma_balance(p: &StreamingParser)
    requires
        p.wf(),
    ensures
        depth(p.events()) >= 0,
        p.is_done() ==> depth(p.events()) == 0,
{
}

/// Span starts never decrease along the events.
pub proof fn lemma_spans_monotone(p: &StreamingParser)
    requires
        p.wf(),
    ensures
        spans_monotone(p.events()),
{
}

/// Every attribute key is immediately followed by its value or by `ArrayStart`.
pub proof fn lemma_attributes_paired(p: &StreamingParser)
    requires
        p.wf(),
    ensures
        attributes_paired(p.events()),
{
}

/// The indentation stack: the base columns of the open entries strictly
/// increase from the outermost to the innermost, so after the rule has closed
/// every entry at or right of a line's column, no open entry lies there.
pub proof fn lemma_open_columns_increase(p: &StreamingParser)
    requires
        p.wf(),
    ensures
        forall|i: int, j: int|
            0 <= i < j < p.open_entries().len() ==> (#[trigger] p.open_entries()[i]).base_column
                < (#[trigger] p.open_entries()[j]).base_column,
{
}

/// Every handle in every event resolves in the parser's arena.
pub proof fn lemma_handles_resolve(p: &StreamingParser)
    requires
        p.wf(),
    ensures
        forall|i: int| 0 <= i < p.events().len() ==> #[trigger] handles_valid(p.events()[i], p.chunks()),
{
}

/// The events are those of the parsed lines, one line after another: while
/// every line so far is plain, each line's events are exactly `line_result` of
/// the open entries before it. The lines follow one another through the input
/// chunks from the first on; once caught up, every line of every chunk has
/// been parsed. Before the end of input is handled, no other event exists;
/// after it, the rest close the entries still open.
pub proof fn lemma_lines(p: &StreamingParser)
    requires
        p.wf(),
    ensures
        log_ok(p.chunks(), p.lines(), p.events()),
        !p.is_done() ==> p.events().len() == if p.lines().len() == 0 {
            0
        } else {
            p.lines().last().last_event
        },
        !p.is_done() ==> p.open_entries() == if p.lines().len() == 0 {
            Seq::<Frame>::empty()
        } else {
            p.lines().last().after
        },
        p.is_done() && plain_upto(p.chunks(), p.lines(), p.lines().len() as int) ==> p.events().skip(
            if p.lines().len() == 0 {
                0
            } else {
                p.lines().last().last_event
            },
        ) == close_events(
            if p.lines().len() == 0 {
                Seq::<Frame>::empty()
            } else {
                p.lines().last().after
            },
            span_range(p.end_offset(), 0, 0),
        ),
        p.caught_up() && p.lines().len() == 0 ==> p.chunks().len() == 1,
        p.caught_up() && p.lines().len() > 0 ==> follow(p.chunks(), p.lines().last()) == (
            p.chunks().len() as int,
            0int,
        ),
{
    if p.lines().len() > 0 {
        reveal(log_ok);
        let r = p.log@.last();
        assert(r == p.log@[p.log@.len() - 1]);
        assert(r.chunk < p.arena@.len());
    }
}

/// The events handed out by `read` are the first events, in order.
pub proof fn lemma_delivered_in_order(p: &StreamingParser)
    requires
        p.wf(),
    ensures
        is_prefix(p.delivered(), p.events()),
{
    let h = p.engine.history@;
    let f = p.engine.flushed@ as int;
    assert(p.inv());
    assert((p.delivered@ + p.ring@).len() == f);
    assert forall|i: int| 0 <= i < p.delivered@.len() implies #[trigger] h[i] == p.delivered@[i] by {
        assert((p.delivered@ + p.ring@)[i] == p.delivered@[i]);
        assert(h.take(f)[i] == h[i]);
    }
}

} // verus!
