//! The events that the parser emits, with their error and warning codes.
use vstd::prelude::*;
use crate::arena::ChunkSlice;
use crate::span::Span;

verus! {

/// Codes carried by `Error` events (and, for `InconsistentIndent`, by `Warning` events).
#[derive(Debug, Clone, Copy, PartialEq, Eq, Structural)]
pub enum ParseErrorCode {
    /// A construct was still open at the end of the line or input.
    Unclosed,
    /// A double-quoted string has no closing quote.
    UnclosedString,
    /// A single-quoted name or string has no closing quote.
    UnclosedQuote,
    /// An array literal has no closing bracket.
    UnclosedArray,
    /// An identity `[id]` has no closing bracket.
    UnclosedBracket,
    /// An inline comment `;{...}` has no closing brace.
    UnclosedComment,
    /// An inline directive `!name{...}` has no closing brace.
    UnclosedDirective,
    /// A freeform block has no closing fence.
    UnclosedFreeform,
    /// A directive lacks its name.
    IncompleteDirective,
    /// A `:` is not followed by an attribute key.
    ExpectedAttrKey,
    /// A `.` is not followed by a class name.
    ExpectedClassName,
    /// Something other than a separator follows a value.
    UnexpectedAfterValue,
    /// A tab appears in indentation.
    NoTabs,
    /// A content line is indented less than the content lines before it.
    InconsistentIndent,
}

/// The human-readable text of each code.
pub open spec fn message_of(code: ParseErrorCode) -> Seq<char> {
    match code {
        ParseErrorCode::Unclosed => "unclosed"@,
        ParseErrorCode::UnclosedString => "unclosed string"@,
        ParseErrorCode::UnclosedQuote => "unclosed quote"@,
        ParseErrorCode::UnclosedArray => "unclosed array"@,
        ParseErrorCode::UnclosedBracket => "unclosed bracket"@,
        ParseErrorCode::UnclosedComment => "unclosed comment"@,
        ParseErrorCode::UnclosedDirective => "unclosed directive"@,
        ParseErrorCode::UnclosedFreeform => "unclosed freeform"@,
        ParseErrorCode::IncompleteDirective => "incomplete directive"@,
        ParseErrorCode::ExpectedAttrKey => "expected attr key"@,
        ParseErrorCode::ExpectedClassName => "expected class name"@,
        ParseErrorCode::UnexpectedAfterValue => "unexpected after value"@,
        ParseErrorCode::NoTabs => "no tabs"@,
        ParseErrorCode::InconsistentIndent => "inconsistent indentation"@,
    }
}

impl ParseErrorCode {
    /// A human-readable message for this code.
    pub fn message(self) -> (r: &'static str)
        ensures
            r@ == message_of(self),
    {
        match self {
            ParseErrorCode::Unclosed => "unclosed",
            ParseErrorCode::UnclosedString => "unclosed string",
            ParseErrorCode::UnclosedQuote => "unclosed quote",
            ParseErrorCode::UnclosedArray => "unclosed array",
            ParseErrorCode::UnclosedBracket => "unclosed bracket",
            ParseErrorCode::UnclosedComment => "unclosed comment",
            ParseErrorCode::UnclosedDirective => "unclosed directive",
            ParseErrorCode::UnclosedFreeform => "unclosed freeform",
            ParseErrorCode::IncompleteDirective => "incomplete directive",
            ParseErrorCode::ExpectedAttrKey => "expected attr key",
            ParseErrorCode::ExpectedClassName => "expected class name",
            ParseErrorCode::UnexpectedAfterValue => "unexpected after value",
            ParseErrorCode::NoTabs => "no tabs",
            ParseErrorCode::InconsistentIndent => "inconsistent indentation",
        }
    }
}

/// Payload of an inline directive `!ns:name{content}`, kept out of line so that
/// the event itself stays small.
#[derive(Debug, Clone, PartialEq, Eq, Structural)]
pub struct InlineDirectiveData {
    pub name: ChunkSlice,
    pub namespace: Option<ChunkSlice>,
    pub content: ChunkSlice,
    pub span: Span,
}

/// One parse event. Byte payloads are handles into the parser's chunk arena.
///
/// Float and complex values carry their source lexeme (which may hold `_`
/// separators); turning it into an IEEE-754 number is left to the consumer.
#[derive(Debug, Clone, PartialEq, Eq)]
pub enum StreamingEvent {
    ElementStart { name: Option<ChunkSlice>, span: Span },
    ElementEnd { span: Span },
    EmbeddedStart { name: Option<ChunkSlice>, span: Span },
    EmbeddedEnd { span: Span },
    Attribute { key: ChunkSlice, span: Span },
    ArrayStart { span: Span },
    ArrayEnd { span: Span },
    NilValue { span: Span },
    BoolValue { value: bool, span: Span },
    IntegerValue { value: i64, span: Span },
    FloatValue { lexeme: ChunkSlice, span: Span },
    RationalValue { numerator: i64, denominator: i64, span: Span },
    ComplexValue { real: Option<ChunkSlice>, imag: ChunkSlice, span: Span },
    StringValue { value: ChunkSlice, span: Span },
    QuotedStringValue { value: ChunkSlice, span: Span },
    DateValue { value: ChunkSlice, span: Span },
    TimeValue { value: ChunkSlice, span: Span },
    DateTimeValue { value: ChunkSlice, span: Span },
    DurationValue { value: ChunkSlice, span: Span },
    RelativeTimeValue { value: ChunkSlice, span: Span },
    Text { content: ChunkSlice, span: Span },
    Comment { content: ChunkSlice, span: Span },
    RawContent { content: ChunkSlice, span: Span },
    DirectiveStart { name: ChunkSlice, namespace: Option<ChunkSlice>, span: Span },
    DirectiveEnd { span: Span },
    InlineDirective(Box<InlineDirectiveData>),
    Interpolation { expression: ChunkSlice, span: Span },
    IdReference { id: ChunkSlice, span: Span },
    AttributeMerge { id: ChunkSlice, span: Span },
    FreeformStart { span: Span },
    FreeformEnd { span: Span },
    Warning { code: ParseErrorCode, span: Span },
    Error { code: ParseErrorCode, span: Span },
}

/// The span of an event.
pub open spec fn span_of(e: StreamingEvent) -> Span {
    match e {
        StreamingEvent::ElementStart { span, .. } => span,
        StreamingEvent::ElementEnd { span } => span,
        StreamingEvent::EmbeddedStart { span, .. } => span,
        StreamingEvent::EmbeddedEnd { span } => span,
        StreamingEvent::Attribute { span, .. } => span,
        StreamingEvent::ArrayStart { span } => span,
        StreamingEvent::ArrayEnd { span } => span,
        StreamingEvent::NilValue { span } => span,
        StreamingEvent::BoolValue { span, .. } => span,
        StreamingEvent::IntegerValue { span, .. } => span,
        StreamingEvent::FloatValue { span, .. } => span,
        StreamingEvent::RationalValue { span, .. } => span,
        StreamingEvent::ComplexValue { span, .. } => span,
        StreamingEvent::StringValue { span, .. } => span,
        StreamingEvent::QuotedStringValue { span, .. } => span,
        StreamingEvent::DateValue { span, .. } => span,
        StreamingEvent::TimeValue { span, .. } => span,
        StreamingEvent::DateTimeValue { span, .. } => span,
        StreamingEvent::DurationValue { span, .. } => span,
        StreamingEvent::RelativeTimeValue { span, .. } => span,
        StreamingEvent::Text { span, .. } => span,
        StreamingEvent::Comment { span, .. } => span,
        StreamingEvent::RawContent { span, .. } => span,
        StreamingEvent::DirectiveStart { span, .. } => span,
        StreamingEvent::DirectiveEnd { span } => span,
        StreamingEvent::InlineDirective(data) => data.span,
        StreamingEvent::Interpolation { span, .. } => span,
        StreamingEvent::IdReference { span, .. } => span,
        StreamingEvent::AttributeMerge { span, .. } => span,
        StreamingEvent::FreeformStart { span } => span,
        StreamingEvent::FreeformEnd { span } => span,
        StreamingEvent::Warning { span, .. } => span,
        StreamingEvent::Error { span, .. } => span,
    }
}

/// Events that open a structure closed by a matching end event.
pub open spec fn is_start(e: StreamingEvent) -> bool {
    ||| e is ElementStart
    ||| e is EmbeddedStart
    ||| e is DirectiveStart
    ||| e is ArrayStart
    ||| e is FreeformStart
}

/// Events that close a structure.
pub open spec fn is_end(e: StreamingEvent) -> bool {
    ||| e is ElementEnd
    ||| e is EmbeddedEnd
    ||| e is DirectiveEnd
    ||| e is ArrayEnd
    ||| e is FreeformEnd
}

/// Events that are a complete attribute value.
pub open spec fn is_scalar_value(e: StreamingEvent) -> bool {
    ||| e is NilValue
    ||| e is BoolValue
    ||| e is IntegerValue
    ||| e is FloatValue
    ||| e is RationalValue
    ||| e is ComplexValue
    ||| e is StringValue
    ||| e is QuotedStringValue
    ||| e is DateValue
    ||| e is TimeValue
    ||| e is DateTimeValue
    ||| e is DurationValue
    ||| e is RelativeTimeValue
}

/// Events that may follow an `Attribute`: a value, or the start of an array.
pub open spec fn is_value_start(e: StreamingEvent) -> bool {
    is_scalar_value(e) || e is ArrayStart
}

/// How an event changes the nesting depth.
pub open spec fn depth_delta(e: StreamingEvent) -> int {
    if is_start(e) {
        1
    } else if is_end(e) {
        -1
    } else {
        0
    }
}

/// Number of start events minus number of end events.
pub open spec fn depth(s: Seq<StreamingEvent>) -> int
    decreases s.len(),
{
    if s.len() == 0 {
        0
    } else {
        depth(s.drop_last()) + depth_delta(s.last())
    }
}

/// Every `Attribute` is immediately followed by a value or an `ArrayStart`.
pub open spec fn attributes_paired(s: Seq<StreamingEvent>) -> bool {
    forall|i: int|
        0 <= i < s.len() && (#[trigger] s[i]) is Attribute ==> i + 1 < s.len()
            && is_value_start(s[i + 1])
}

/// Span starts never decrease along the sequence.
pub open spec fn spans_monotone(s: Seq<StreamingEvent>) -> bool {
    forall|i: int, j: int|
        0 <= i <= j < s.len() ==> (#[trigger] span_of(s[i])).start <= (#[trigger] span_of(
            s[j],
        )).start
}

impl StreamingEvent {
    /// The span of this event.
    pub fn span(&self) -> (r: Span)
        ensures
            r == span_of(*self),
    {
        match self {
            StreamingEvent::ElementStart { span, .. } => *span,
            StreamingEvent::ElementEnd { span } => *span,
            StreamingEvent::EmbeddedStart { span, .. } => *span,
            StreamingEvent::EmbeddedEnd { span } => *span,
            StreamingEvent::Attribute { span, .. } => *span,
            StreamingEvent::ArrayStart { span } => *span,
            StreamingEvent::ArrayEnd { span } => *span,
            StreamingEvent::NilValue { span } => *span,
            StreamingEvent::BoolValue { span, .. } => *span,
            StreamingEvent::IntegerValue { span, .. } => *span,
            StreamingEvent::FloatValue { span, .. } => *span,
            StreamingEvent::RationalValue { span, .. } => *span,
            StreamingEvent::ComplexValue { span, .. } => *span,
            StreamingEvent::StringValue { span, .. } => *span,
            StreamingEvent::QuotedStringValue { span, .. } => *span,
            StreamingEvent::DateValue { span, .. } => *span,
            StreamingEvent::TimeValue { span, .. } => *span,
            StreamingEvent::DateTimeValue { span, .. } => *span,
            StreamingEvent::DurationValue { span, .. } => *span,
            StreamingEvent::RelativeTimeValue { span, .. } => *span,
            StreamingEvent::Text { span, .. } => *span,
            StreamingEvent::Comment { span, .. } => *span,
            StreamingEvent::RawContent { span, .. } => *span,
            StreamingEvent::DirectiveStart { span, .. } => *span,
            StreamingEvent::DirectiveEnd { span } => *span,
            StreamingEvent::InlineDirective(data) => data.span,
            StreamingEvent::Interpolation { span, .. } => *span,
            StreamingEvent::IdReference { span, .. } => *span,
            StreamingEvent::AttributeMerge { span, .. } => *span,
            StreamingEvent::FreeformStart { span } => *span,
            StreamingEvent::FreeformEnd { span } => *span,
            StreamingEvent::Warning { span, .. } => *span,
            StreamingEvent::Error { span, .. } => *span,
        }
    }

    /// The lowest chunk index among the event's handles, if it has any.
    pub fn min_chunk_idx(&self) -> (r: Option<u32>)
        ensures
            r is None <==> all_handles(*self, no_handle()),
            r is Some ==> all_handles(*self, chunk_at_least(r->0)) && some_handle(
                *self,
                chunk_is(r->0),
            ),
    {
        match self {
            StreamingEvent::ElementStart { name, .. } => chunk_of(*name),
            StreamingEvent::EmbeddedStart { name, .. } => chunk_of(*name),
            StreamingEvent::Attribute { key, .. } => Some(key.chunk_idx),
            StreamingEvent::FloatValue { lexeme, .. } => Some(lexeme.chunk_idx),
            StreamingEvent::ComplexValue { real: re, imag, .. } => lower(
                chunk_of(*re),
                Some(imag.chunk_idx),
            ),
            StreamingEvent::StringValue { value, .. } => Some(value.chunk_idx),
            StreamingEvent::QuotedStringValue { value, .. } => Some(value.chunk_idx),
            StreamingEvent::DateValue { value, .. } => Some(value.chunk_idx),
            StreamingEvent::TimeValue { value, .. } => Some(value.chunk_idx),
            StreamingEvent::DateTimeValue { value, .. } => Some(value.chunk_idx),
            StreamingEvent::DurationValue { value, .. } => Some(value.chunk_idx),
            StreamingEvent::RelativeTimeValue { value, .. } => Some(value.chunk_idx),
            StreamingEvent::Text { content, .. } => Some(content.chunk_idx),
            StreamingEvent::Comment { content, .. } => Some(content.chunk_idx),
            StreamingEvent::RawContent { content, .. } => Some(content.chunk_idx),
            StreamingEvent::DirectiveStart { name, namespace, .. } => lower(
                Some(name.chunk_idx),
                chunk_of(*namespace),
            ),
            StreamingEvent::InlineDirective(d) => lower(
                lower(Some(d.name.chunk_idx), chunk_of(d.namespace)),
                Some(d.content.chunk_idx),
            ),
            StreamingEvent::Interpolation { expression, .. } => Some(expression.chunk_idx),
            StreamingEvent::IdReference { id, .. } => Some(id.chunk_idx),
            StreamingEvent::AttributeMerge { id, .. } => Some(id.chunk_idx),
            _ => None,
        }
    }

    /// Whether this is an `Error` event.
    pub fn is_error(&self) -> (r: bool)
        ensures
            r == (*self is Error),
    {
        match self {
            StreamingEvent::Error { .. } => true,
            _ => false,
        }
    }

    /// Whether this event is a complete attribute value.
    pub fn is_value(&self) -> (r: bool)
        ensures
            r == is_scalar_value(*self),
    {
        match self {
            StreamingEvent::NilValue { .. } | StreamingEvent::BoolValue { .. }
            | StreamingEvent::IntegerValue { .. } | StreamingEvent::FloatValue { .. }
            | StreamingEvent::RationalValue { .. } | StreamingEvent::ComplexValue { .. }
            | StreamingEvent::StringValue { .. } | StreamingEvent::QuotedStringValue { .. }
            | StreamingEvent::DateValue { .. } | StreamingEvent::TimeValue { .. }
            | StreamingEvent::DateTimeValue { .. } | StreamingEvent::DurationValue { .. }
            | StreamingEvent::RelativeTimeValue { .. } => true,
            _ => false,
        }
    }

    /// Whether this event opens a structure.
    pub fn is_structure_start(&self) -> (r: bool)
        ensures
            r == is_start(*self),
    {
        match self {
            StreamingEvent::ElementStart { .. } | StreamingEvent::EmbeddedStart { .. }
            | StreamingEvent::DirectiveStart { .. } | StreamingEvent::ArrayStart { .. }
            | StreamingEvent::FreeformStart { .. } => true,
            _ => false,
        }
    }
}

/// A handle names a byte range inside one of `chunks`.
pub open spec fn slice_valid(s: ChunkSlice, chunks: Seq<Seq<u8>>) -> bool {
    s.chunk_idx < chunks.len() && s.start <= s.end <= chunks[s.chunk_idx as int].len()
}

/// Every handle that `e` carries satisfies `ok`.
pub open spec fn all_handles(e: StreamingEvent, ok: spec_fn(ChunkSlice) -> bool) -> bool {
    match e {
        StreamingEvent::ElementStart { name, .. } => name is None || ok(name->0),
        StreamingEvent::EmbeddedStart { name, .. } => name is None || ok(name->0),
        StreamingEvent::Attribute { key, .. } => ok(key),
        StreamingEvent::FloatValue { lexeme, .. } => ok(lexeme),
        StreamingEvent::ComplexValue { real: re, imag, .. } => (re is None || ok(re->0)) && ok(
            imag,
        ),
        StreamingEvent::StringValue { value, .. } => ok(value),
        StreamingEvent::QuotedStringValue { value, .. } => ok(value),
        StreamingEvent::DateValue { value, .. } => ok(value),
        StreamingEvent::TimeValue { value, .. } => ok(value),
        StreamingEvent::DateTimeValue { value, .. } => ok(value),
        StreamingEvent::DurationValue { value, .. } => ok(value),
        StreamingEvent::RelativeTimeValue { value, .. } => ok(value),
        StreamingEvent::Text { content, .. } => ok(content),
        StreamingEvent::Comment { content, .. } => ok(content),
        StreamingEvent::RawContent { content, .. } => ok(content),
        StreamingEvent::DirectiveStart { name, namespace, .. } => ok(name) && (namespace is None
            || ok(namespace->0)),
        StreamingEvent::InlineDirective(d) => ok(d.name) && (d.namespace is None || ok(
            d.namespace->0,
        )) && ok(d.content),
        StreamingEvent::Interpolation { expression, .. } => ok(expression),
        StreamingEvent::IdReference { id, .. } => ok(id),
        StreamingEvent::AttributeMerge { id, .. } => ok(id),
        _ => true,
    }
}

/// The handles that name a byte range inside `chunks`.
pub open spec fn valid_in(chunks: Seq<Seq<u8>>) -> spec_fn(ChunkSlice) -> bool {
    |s: ChunkSlice| slice_valid(s, chunks)
}

/// Some handle that `e` carries satisfies `ok`.
pub open spec fn some_handle(e: StreamingEvent, ok: spec_fn(ChunkSlice) -> bool) -> bool {
    match e {
        StreamingEvent::ElementStart { name, .. } => name is Some && ok(name->0),
        StreamingEvent::EmbeddedStart { name, .. } => name is Some && ok(name->0),
        StreamingEvent::Attribute { key, .. } => ok(key),
        StreamingEvent::FloatValue { lexeme, .. } => ok(lexeme),
        StreamingEvent::ComplexValue { real: re, imag, .. } => (re is Some && ok(re->0)) || ok(
            imag,
        ),
        StreamingEvent::StringValue { value, .. } => ok(value),
        StreamingEvent::QuotedStringValue { value, .. } => ok(value),
        StreamingEvent::DateValue { value, .. } => ok(value),
        StreamingEvent::TimeValue { value, .. } => ok(value),
        StreamingEvent::DateTimeValue { value, .. } => ok(value),
        StreamingEvent::DurationValue { value, .. } => ok(value),
        StreamingEvent::RelativeTimeValue { value, .. } => ok(value),
        StreamingEvent::Text { content, .. } => ok(content),
        StreamingEvent::Comment { content, .. } => ok(content),
        StreamingEvent::RawContent { content, .. } => ok(content),
        StreamingEvent::DirectiveStart { name, namespace, .. } => ok(name) || (namespace is Some
            && ok(namespace->0)),
        StreamingEvent::InlineDirective(d) => ok(d.name) || (d.namespace is Some && ok(
            d.namespace->0,
        )) || ok(d.content),
        StreamingEvent::Interpolation { expression, .. } => ok(expression),
        StreamingEvent::IdReference { id, .. } => ok(id),
        StreamingEvent::AttributeMerge { id, .. } => ok(id),
        _ => false,
    }
}

/// No handle satisfies this.
pub open spec fn no_handle() -> spec_fn(ChunkSlice) -> bool {
    |s: ChunkSlice| false
}

/// Handles into chunk `c` or a later one.
pub open spec fn chunk_at_least(c: u32) -> spec_fn(ChunkSlice) -> bool {
    |s: ChunkSlice| s.chunk_idx >= c
}

/// Handles into chunk `c`.
pub open spec fn chunk_is(c: u32) -> spec_fn(ChunkSlice) -> bool {
    |s: ChunkSlice| s.chunk_idx == c
}

/// The chunk of an optional handle.
fn chunk_of(s: Option<ChunkSlice>) -> (r: Option<u32>)
    ensures
        r == (match s {
            Some(x) => Some(x.chunk_idx),
            None => None::<u32>,
        }),
{
    match s {
        Some(x) => Some(x.chunk_idx),
        None => None,
    }
}

/// The smaller of two optional chunk indices.
fn lower(a: Option<u32>, b: Option<u32>) -> (r: Option<u32>)
    ensures
        r == (match (a, b) {
            (Some(x), Some(y)) => Some(if x <= y { x } else { y }),
            (Some(x), None) => Some(x),
            (None, Some(y)) => Some(y),
            (None, None) => None::<u32>,
        }),
{
    match (a, b) {
        (Some(x), Some(y)) => Some(if x <= y { x } else { y }),
        (Some(x), None) => Some(x),
        (None, Some(y)) => Some(y),
        (None, None) => None,
    }
}

/// Every handle an event carries names a byte range inside `chunks`.
pub open spec fn handles_valid(e: StreamingEvent, chunks: Seq<Seq<u8>>) -> bool {
    all_handles(e, valid_in(chunks))
}

/// A property that every handle meets carries over to a weaker one.
pub proof fn lemma_all_handles_weaken(
    e: StreamingEvent,
    p: spec_fn(ChunkSlice) -> bool,
    q: spec_fn(ChunkSlice) -> bool,
)
    requires
        all_handles(e, p),
        forall|s: ChunkSlice| #[trigger] p(s) ==> q(s),
    ensures
        all_handles(e, q),
{
}

/// Outcome of one call that hands input to the parser.
#[derive(Debug, Clone, Copy, PartialEq, Eq, Structural)]
pub struct FeedResult {
    /// Number of bytes taken from the caller.
    pub bytes_consumed: usize,
    /// Number of events placed in the ring during the call.
    pub events_written: usize,
    /// Whether the ring was full when the call returned.
    pub buffer_full: bool,
}

} // verus!
