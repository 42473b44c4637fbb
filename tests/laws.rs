//! Properties of the event stream, checked on concrete inputs.

use udon_core::arena::ChunkSlice;
use udon_core::event::{ParseErrorCode, StreamingEvent};
use udon_core::parser::StreamingParser;

/// Event kinds with their resolved payloads, spans dropped.
#[derive(Debug, Clone, PartialEq)]
enum K {
    Start(Option<Vec<u8>>),
    End,
    DirStart(Vec<u8>),
    DirEnd,
    Attr(Vec<u8>),
    ArrStart,
    ArrEnd,
    Int(i64),
    Bool(bool),
    Str(Vec<u8>),
    Quoted(Vec<u8>),
    Text(Vec<u8>),
    Raw(Vec<u8>),
    Interp(Vec<u8>),
    FreeStart,
    FreeEnd,
    Warn(ParseErrorCode),
    Fail(ParseErrorCode),
    Other(String),
}

fn res(p: &StreamingParser, c: ChunkSlice) -> Vec<u8> {
    p.arena().resolve(c).unwrap().to_vec()
}

fn kind(p: &StreamingParser, e: &StreamingEvent) -> K {
    match e {
        StreamingEvent::ElementStart { name, .. } => K::Start(name.map(|c| res(p, c))),
        StreamingEvent::ElementEnd { .. } => K::End,
        StreamingEvent::DirectiveStart { name, .. } => K::DirStart(res(p, *name)),
        StreamingEvent::DirectiveEnd { .. } => K::DirEnd,
        StreamingEvent::Attribute { key, .. } => K::Attr(res(p, *key)),
        StreamingEvent::ArrayStart { .. } => K::ArrStart,
        StreamingEvent::ArrayEnd { .. } => K::ArrEnd,
        StreamingEvent::IntegerValue { value, .. } => K::Int(*value),
        StreamingEvent::BoolValue { value, .. } => K::Bool(*value),
        StreamingEvent::StringValue { value, .. } => K::Str(res(p, *value)),
        StreamingEvent::QuotedStringValue { value, .. } => K::Quoted(res(p, *value)),
        StreamingEvent::Text { content, .. } => K::Text(res(p, *content)),
        StreamingEvent::RawContent { content, .. } => K::Raw(res(p, *content)),
        StreamingEvent::Interpolation { expression, .. } => K::Interp(res(p, *expression)),
        StreamingEvent::FreeformStart { .. } => K::FreeStart,
        StreamingEvent::FreeformEnd { .. } => K::FreeEnd,
        StreamingEvent::Warning { code, .. } => K::Warn(*code),
        StreamingEvent::Error { code, .. } => K::Fail(*code),
        other => K::Other(format!("{:?}", other)),
    }
}

/// Feed `parts` one after another, finish, and read every event.
fn run(parts: &[&[u8]], ring: usize) -> (Vec<K>, Vec<StreamingEvent>) {
    let mut p = StreamingParser::new(ring);
    let mut raw = Vec::new();
    for part in parts {
        p.feed(part);
        while let Some(e) = p.read() {
            raw.push(e);
        }
    }
    p.finish();
    while let Some(e) = p.read() {
        raw.push(e);
    }
    let kinds = raw.iter().map(|e| kind(&p, e)).collect();
    (kinds, raw)
}

fn kinds(input: &[u8]) -> Vec<K> {
    run(&[input], 1024).0
}

fn b(x: &[u8]) -> Vec<u8> {
    x.to_vec()
}

fn depth_never_negative_and_ends_zero(events: &[StreamingEvent]) -> bool {
    let mut d: i64 = 0;
    for e in events {
        if e.is_structure_start() {
            d += 1;
        }
        match e {
            StreamingEvent::ElementEnd { .. }
            | StreamingEvent::EmbeddedEnd { .. }
            | StreamingEvent::DirectiveEnd { .. }
            | StreamingEvent::ArrayEnd { .. }
            | StreamingEvent::FreeformEnd { .. } => d -= 1,
            _ => {}
        }
        if d < 0 {
            return false;
        }
    }
    d == 0
}

const SAMPLES: &[&[u8]] = &[
    b"|div\n",
    b"|a\n  |b\n    |c\n|d\n",
    b"|el :tags [a [b [c\n",
    b"|p |{em x |{strong y\n",
    b"```\nunterminated\n",
    b"!raw:json\n  {\"k\": 1}\n!if x\n  |y\n",
    b"|a[unclosed\n|b.'open\n|c :k \"open\n",
    b"\t|tab\n  \t text\n",
    b"|x :k\n|y :a 1 :b [1 2] :c \"q\" ?\n",
    b"",
    b"just prose |{e\n",
];

#[test]
fn scenario_div() {
    assert_eq!(kinds(b"|div\n"), vec![K::Start(Some(b(b"div"))), K::End]);
}

#[test]
fn scenario_identity() {
    assert_eq!(
        kinds(b"|foo[id].bar?\n"),
        vec![
            K::Start(Some(b(b"foo"))),
            K::Attr(b(b"$id")),
            K::Str(b(b"id")),
            K::Attr(b(b"$class")),
            K::Str(b(b"bar")),
            K::Attr(b(b"?")),
            K::Bool(true),
            K::End,
        ]
    );
}

#[test]
fn scenario_dedent() {
    assert_eq!(
        kinds(b"|a\n  |b\n    |c\n|d\n"),
        vec![
            K::Start(Some(b(b"a"))),
            K::Start(Some(b(b"b"))),
            K::Start(Some(b(b"c"))),
            K::End,
            K::End,
            K::End,
            K::Start(Some(b(b"d"))),
            K::End,
        ]
    );
}

#[test]
fn scenario_inline_heads() {
    assert_eq!(
        kinds(b"|one |two |three\n  |alpha\n"),
        vec![
            K::Start(Some(b(b"one"))),
            K::Start(Some(b(b"two"))),
            K::Start(Some(b(b"three"))),
            K::End,
            K::End,
            K::Start(Some(b(b"alpha"))),
            K::End,
            K::End,
        ]
    );
}

#[test]
fn scenario_array_attribute() {
    assert_eq!(
        kinds(b"|el :tags [a 42 \"x\"]\n"),
        vec![
            K::Start(Some(b(b"el"))),
            K::Attr(b(b"tags")),
            K::ArrStart,
            K::Str(b(b"a")),
            K::Int(42),
            K::Quoted(b(b"x")),
            K::ArrEnd,
            K::End,
        ]
    );
}

#[test]
fn scenario_interpolation() {
    assert_eq!(
        kinds(b"|p Hello, !{{user.name}}!\n"),
        vec![
            K::Start(Some(b(b"p"))),
            K::Text(b(b"Hello, ")),
            K::Interp(b(b"user.name")),
            K::Text(b(b"!")),
            K::End,
        ]
    );
}

#[test]
fn scenario_freeform() {
    assert_eq!(
        kinds(b"```\n|not-an-element\n```"),
        vec![K::FreeStart, K::Raw(b(b"|not-an-element\n")), K::FreeEnd]
    );
}

#[test]
fn balance_on_valid_and_invalid_inputs() {
    for input in SAMPLES {
        let (_, raw) = run(&[input], 1024);
        assert!(depth_never_negative_and_ends_zero(&raw), "unbalanced: {:?}", input);
    }
}

#[test]
fn spans_never_decrease() {
    for input in SAMPLES {
        let (_, raw) = run(&[input], 1024);
        for w in raw.windows(2) {
            assert!(w[0].span().start <= w[1].span().start, "{:?}", input);
        }
    }
}

#[test]
fn only_known_events_and_no_panic_on_odd_bytes() {
    let mut input = Vec::new();
    for i in 0..2000u32 {
        input.push((i.wrapping_mul(2654435761) >> 13) as u8);
    }
    let (_, raw) = run(&[&input], 16);
    assert!(depth_never_negative_and_ends_zero(&raw));
}

#[test]
fn parsing_twice_gives_the_same_events() {
    for input in SAMPLES {
        assert_eq!(run(&[input], 1024).0, run(&[input], 1024).0);
    }
}

#[test]
fn attributes_are_followed_by_values() {
    for input in SAMPLES {
        let (_, raw) = run(&[input], 1024);
        for (i, e) in raw.iter().enumerate() {
            if let StreamingEvent::Attribute { .. } = e {
                let next = &raw[i + 1];
                assert!(next.is_value() || matches!(next, StreamingEvent::ArrayStart { .. }));
            }
        }
    }
}

#[test]
fn chunking_does_not_change_events() {
    let line: &[u8] = b"|p :k [1 2] Hello !{{x}} |{em y} ;{c}";
    let whole = run(&[line], 1024).0;
    let bytes: Vec<&[u8]> = line.chunks(1).collect();
    assert_eq!(run(&bytes, 1024).0, whole);
    assert_eq!(run(&[&line[..5], &line[5..17], &line[17..]], 1024).0, whole);

    let doc: &[u8] = b"|a\n  |b text\n  more\n|c :x 1\n";
    let whole = run(&[doc], 1024).0;
    assert_eq!(run(&[b"|a\n", b"  |b text\n", b"  more\n|c :x 1\n"], 1024).0, whole);
}

#[test]
fn small_ring_applies_backpressure_without_losing_events() {
    let doc: &[u8] = b"|a\n  |b\n    |c\n|d :k [1 2 3]\n";
    assert_eq!(run(&[doc], 2).0, run(&[doc], 1024).0);
    let mut p = StreamingParser::new(2);
    let r = p.feed(doc);
    assert_eq!(r.bytes_consumed, doc.len());
    assert!(r.buffer_full);
}

#[test]
fn prose_dedent_keeps_extra_spaces() {
    assert_eq!(
        kinds(b"|e\n   one\n     two\n  three\n"),
        vec![
            K::Start(Some(b(b"e"))),
            K::Text(b(b"one")),
            K::Text(b(b"  two")),
            K::Warn(ParseErrorCode::InconsistentIndent),
            K::Text(b(b"three")),
            K::End,
        ]
    );
}

#[test]
fn indent_rule_closes_exactly_the_entries_at_or_right_of_the_column() {
    assert_eq!(
        kinds(b"|a\n  |b |c\n  |d\n"),
        vec![
            K::Start(Some(b(b"a"))),
            K::Start(Some(b(b"b"))),
            K::Start(Some(b(b"c"))),
            K::End,
            K::End,
            K::Start(Some(b(b"d"))),
            K::End,
            K::End,
        ]
    );
}

#[test]
fn tabs_are_reported_and_skipped() {
    assert_eq!(
        kinds(b"|a\n\t  |b\n"),
        vec![
            K::Start(Some(b(b"a"))),
            K::Fail(ParseErrorCode::NoTabs),
            K::Start(Some(b(b"b"))),
            K::End,
            K::End,
        ]
    );
}

#[test]
fn raw_directive_body_is_not_parsed() {
    assert_eq!(
        kinds(b"!raw:sql\n  SELECT |x\n    :y\n|z\n"),
        vec![
            K::DirStart(b(b"sql")),
            K::Raw(b(b"SELECT |x\n")),
            K::Raw(b(b"  :y\n")),
            K::DirEnd,
            K::Start(Some(b(b"z"))),
            K::End,
        ]
    );
}

#[test]
fn block_directive_with_arguments() {
    assert_eq!(
        kinds(b"!if user.admin\n  |panel\n"),
        vec![
            K::DirStart(b(b"if")),
            K::Text(b(b"user.admin")),
            K::Start(Some(b(b"panel"))),
            K::End,
            K::DirEnd,
        ]
    );
}

#[test]
fn unclosed_structures_are_reported_and_closed() {
    assert_eq!(
        kinds(b"|a :k [1\n"),
        vec![
            K::Start(Some(b(b"a"))),
            K::Attr(b(b"k")),
            K::ArrStart,
            K::Int(1),
            K::Fail(ParseErrorCode::UnclosedArray),
            K::ArrEnd,
            K::End,
        ]
    );
    assert_eq!(
        kinds(b"```\nx\n"),
        vec![K::FreeStart, K::Raw(b(b"x\n")), K::Fail(ParseErrorCode::UnclosedFreeform), K::FreeEnd]
    );
}

#[test]
fn spans_are_input_offsets() {
    let (_, raw) = run(&[b"|ab\n|cd\n"], 1024);
    assert_eq!(raw[0].span().start, 0);
    assert_eq!(raw[0].span().end, 3);
    assert_eq!(raw[2].span().start, 4);
}

#[test]
fn reset_forgets_everything() {
    let mut p = StreamingParser::new(8);
    p.feed(b"|a\n");
    p.finish();
    p.reset();
    assert!(p.read().is_none());
    p.feed(b"|b\n");
    p.finish();
    let e = p.read().unwrap();
    assert!(matches!(e, StreamingEvent::ElementStart { .. }));
    assert_eq!(e.span().start, 0);
    assert!(p.peek().is_some());
}

#[test]
fn nested_arrays_stay_balanced() {
    for depth in 1usize..10 {
        let mut input = b"|el :v ".to_vec();
        input.extend(std::iter::repeat(b'[').take(depth));
        input.extend(std::iter::repeat(b']').take(depth));
        let (k, raw) = run(&[&input], 1024);
        assert!(depth_never_negative_and_ends_zero(&raw));
        assert_eq!(k.iter().filter(|e| **e == K::ArrStart).count(), depth);
        assert_eq!(k.iter().filter(|e| **e == K::ArrEnd).count(), depth);
    }
}

#[test]
fn nested_elements_by_indent_stay_balanced() {
    for depth in 1usize..20 {
        let mut input = Vec::new();
        for d in 0..depth {
            input.extend(std::iter::repeat(b' ').take(d * 2));
            input.extend(b"|e\n");
        }
        let (k, raw) = run(&[&input], 4);
        assert!(depth_never_negative_and_ends_zero(&raw));
        assert_eq!(k.iter().filter(|e| **e == K::End).count(), depth);
    }
}

#[test]
fn multi_line_array_continues_until_closed() {
    assert_eq!(
        kinds(b"|a :v [1\n  2]\n|b\n"),
        vec![
            K::Start(Some(b(b"a"))),
            K::Attr(b(b"v")),
            K::ArrStart,
            K::Int(1),
            K::Int(2),
            K::ArrEnd,
            K::End,
            K::Start(Some(b(b"b"))),
            K::End,
        ]
    );
}

fn directive_parts(p: &StreamingParser, e: &StreamingEvent) -> Option<(Option<Vec<u8>>, Vec<u8>, Vec<u8>)> {
    match e {
        StreamingEvent::InlineDirective(d) => {
            Some((d.namespace.map(|n| res(p, n)), res(p, d.name), res(p, d.content)))
        }
        _ => None,
    }
}

#[test]
fn inline_directives_in_both_forms() {
    let mut p = StreamingParser::new(64);
    p.feed(b"|p see !{raw:json {\"k\": \"v\"}} and !upper{x {y}} @[ref]\n");
    p.finish();
    let mut events = Vec::new();
    while let Some(e) = p.read() {
        events.push(e);
    }
    let dirs: Vec<_> = events.iter().filter_map(|e| directive_parts(&p, e)).collect();
    assert_eq!(
        dirs,
        vec![
            (Some(b(b"raw")), b(b"json"), b(b"{\"k\": \"v\"}")),
            (None, b(b"upper"), b(b"x {y}")),
        ]
    );
    assert!(events.iter().any(|e| matches!(e, StreamingEvent::IdReference { id, .. } if res(&p, *id) == b"ref")));
}
