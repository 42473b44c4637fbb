//! Tokenizer primitives: byte classes, scanning for delimiters, and the
//! value events that a lexeme of a line becomes.
use vstd::prelude::*;
use crate::arena::ChunkSlice;
use crate::event::{all_handles, is_value_start, span_of, ParseErrorCode, StreamingEvent};
use crate::scalar::{classify, Scalar};
use crate::span::Span;

verus! {

/// Structural bytes of the notation.
pub const TAB: u8 = 9;
pub const NEWLINE: u8 = 10;
pub const CR: u8 = 13;
pub const SPACE: u8 = 32;
pub const BANG: u8 = 33;
pub const DQUOTE: u8 = 34;
pub const QUOTE: u8 = 39;
pub const STAR: u8 = 42;
pub const PLUS: u8 = 43;
pub const DOT: u8 = 46;
pub const COLON: u8 = 58;
pub const SEMICOLON: u8 = 59;
pub const QUESTION: u8 = 63;
pub const AT: u8 = 64;
pub const LBRACKET: u8 = 91;
pub const BACKSLASH: u8 = 92;
pub const RBRACKET: u8 = 93;
pub const BACKTICK: u8 = 96;
pub const LBRACE: u8 = 123;
pub const PIPE: u8 = 124;
pub const RBRACE: u8 = 125;

/// Length of the chunk of reserved key names that every parse starts with.
pub const KEYS_LEN: u32 = 9;

/// The handle of the reserved key `$id` (the start of the key-name chunk).
pub(crate) fn id_key() -> (r: ChunkSlice)
    ensures
        r.chunk_idx == 0,
        r.start == 0,
        r.end == 3,
{
    ChunkSlice::new(0, 0, 3)
}

/// The handle of the reserved key `$class` (the rest of the key-name chunk).
pub(crate) fn class_key() -> (r: ChunkSlice)
    ensures
        r.chunk_idx == 0,
        r.start == 3,
        r.end == KEYS_LEN,
{
    ChunkSlice::new(0, 3, KEYS_LEN)
}

/// A handle into chunk `ci` of length `n`, or into the chunk of key names.
pub open spec fn slice_in(s: ChunkSlice, ci: u32, n: nat) -> bool {
    ||| s.chunk_idx == ci && s.start <= s.end <= n
    ||| s.chunk_idx == 0 && s.start <= s.end <= KEYS_LEN
}

/// The handles that a line of chunk `ci` (of length `n`) may produce.
pub open spec fn in_line(ci: u32, n: nat) -> spec_fn(ChunkSlice) -> bool {
    |s: ChunkSlice| slice_in(s, ci, n)
}

/// Bytes that may continue a name, a key or a bare value.
pub open spec fn label_byte(b: u8) -> bool {
    (48 <= b <= 57) || (65 <= b <= 90) || (97 <= b <= 122) || b == 95 || b == 45
}

/// Bytes that may continue an element name: label bytes, and the bytes of a
/// non-ASCII (Unicode) letter.
pub open spec fn name_byte(b: u8) -> bool {
    label_byte(b) || b >= 128
}

/// Bytes that may begin an element name: a letter (any non-ASCII byte counts).
pub open spec fn name_start(b: u8) -> bool {
    (65 <= b <= 90) || (97 <= b <= 122) || b >= 128
}

/// Suffix modifiers of an element head.
pub open spec fn suffix_byte(b: u8) -> bool {
    b == QUESTION || b == BANG || b == STAR || b == PLUS
}

/// Whether `b` may continue a name, an attribute key or a bare value.
pub fn is_label_char(b: u8) -> (r: bool)
    ensures
        r == label_byte(b),
{
    is_label_byte(b)
}

/// Number of spaces in `s`.
pub open spec fn count_spaces(s: Seq<u8>) -> nat
    decreases s.len(),
{
    if s.len() == 0 {
        0
    } else {
        count_spaces(s.drop_last()) + if s.last() == SPACE {
            1nat
        } else {
            0nat
        }
    }
}

/// The indentation of the line `data[ls..le]`: where its leading run of spaces
/// and tabs ends, how many spaces that run holds (its column: tabs count for
/// nothing), and where its first tab stands.
pub fn count_indent(data: &[u8], ls: usize, le: usize) -> (r: (usize, usize, Option<usize>))
    requires
        ls <= le <= data@.len(),
    ensures
        ls <= r.0 <= le,
        forall|k: int| ls <= k < r.0 ==> #[trigger] data@[k] == SPACE || data@[k] == TAB,
        r.0 == le || (data@[r.0 as int] != SPACE && data@[r.0 as int] != TAB),
        r.1 == count_spaces(data@.subrange(ls as int, r.0 as int)),
        r.1 <= r.0 - ls,
        r.2 is Some ==> ls <= r.2->0 < r.0 && data@[r.2->0 as int] == TAB,
        r.2 is None ==> forall|k: int| ls <= k < r.0 ==> #[trigger] data@[k] == SPACE,
{
    let mut p = ls;
    let mut col: usize = 0;
    let mut tab: Option<usize> = None;
    while p < le && (data[p] == SPACE || data[p] == TAB)
        invariant
            ls <= p <= le <= data@.len(),
            col <= p - ls,
            forall|k: int| ls <= k < p ==> #[trigger] data@[k] == SPACE || data@[k] == TAB,
            col == count_spaces(data@.subrange(ls as int, p as int)),
            tab is Some ==> ls <= tab->0 < p && data@[tab->0 as int] == TAB,
            tab is None ==> forall|k: int| ls <= k < p ==> #[trigger] data@[k] == SPACE,
        decreases le - p,
    {
        assert(data@.subrange(ls as int, p as int + 1).drop_last() =~= data@.subrange(ls as int, p as int));
        if data[p] == TAB {
            if tab.is_none() {
                tab = Some(p);
            }
        } else {
            col = col + 1;
        }
        p = p + 1;
    }
    (p, col, tab)
}

pub(crate) fn is_label_byte(b: u8) -> (r: bool)
    ensures
        r == label_byte(b),
{
    (48 <= b && b <= 57) || (65 <= b && b <= 90) || (97 <= b && b <= 122) || b == 95 || b == 45
}

/// End of the run of element-name bytes that starts at `i`.
pub(crate) fn scan_name(data: &[u8], i: usize, le: usize) -> (r: usize)
    requires
        i <= le <= data@.len(),
    ensures
        i <= r <= le,
        forall|k: int| i <= k < r ==> name_byte(#[trigger] data@[k]),
        r == le || !name_byte(data@[r as int]),
{
    let mut k = i;
    while k < le && (is_label_byte(data[k]) || data[k] >= 128)
        invariant
            i <= k <= le <= data@.len(),
            forall|m: int| i <= m < k ==> name_byte(#[trigger] data@[m]),
        decreases le - k,
    {
        k = k + 1;
    }
    k
}

pub(crate) fn is_name_start(b: u8) -> (r: bool)
    ensures
        r == name_start(b),
{
    (65 <= b && b <= 90) || (97 <= b && b <= 122) || b >= 128
}

pub(crate) fn is_suffix(b: u8) -> (r: bool)
    ensures
        r == suffix_byte(b),
{
    b == QUESTION || b == BANG || b == STAR || b == PLUS
}

/// End of the run of label bytes that starts at `i`.
pub(crate) fn scan_label(data: &[u8], i: usize, le: usize) -> (r: usize)
    requires
        i <= le <= data@.len(),
    ensures
        i <= r <= le,
        forall|k: int| i <= k < r ==> label_byte(#[trigger] data@[k]),
        r == le || !label_byte(data@[r as int]),
{
    let mut k = i;
    while k < le && is_label_byte(data[k])
        invariant
            i <= k <= le <= data@.len(),
            forall|m: int| i <= m < k ==> label_byte(#[trigger] data@[m]),
        decreases le - k,
    {
        k = k + 1;
    }
    k
}

/// End of the run of spaces that starts at `i`.
pub(crate) fn skip_spaces(data: &[u8], i: usize, le: usize) -> (r: usize)
    requires
        i <= le <= data@.len(),
    ensures
        i <= r <= le,
        forall|k: int| i <= k < r ==> #[trigger] data@[k] == SPACE,
        r == le || data@[r as int] != SPACE,
{
    let mut k = i;
    while k < le && data[k] == SPACE
        invariant
            i <= k <= le <= data@.len(),
            forall|m: int| i <= m < k ==> #[trigger] data@[m] == SPACE,
        decreases le - k,
    {
        k = k + 1;
    }
    k
}

/// First `b` in `i..le`.
pub(crate) fn find_byte(data: &[u8], i: usize, le: usize, b: u8) -> (r: Option<usize>)
    requires
        i <= le <= data@.len(),
    ensures
        r is Some ==> i <= r->0 < le && data@[r->0 as int] == b,
        r is Some ==> forall|k: int| i <= k < r->0 ==> #[trigger] data@[k] != b,
        r is None ==> forall|k: int| i <= k < le ==> #[trigger] data@[k] != b,
{
    let mut k = i;
    while k < le
        invariant
            i <= k <= le <= data@.len(),
            forall|m: int| i <= m < k ==> #[trigger] data@[m] != b,
        decreases le - k,
    {
        if data[k] == b {
            return Some(k);
        }
        k = k + 1;
    }
    None
}

/// Closing quote `q` of a string whose interior starts at `i`; a backslash
/// escapes the byte after it.
pub(crate) fn find_quote_end(data: &[u8], i: usize, le: usize, q: u8) -> (r: Option<usize>)
    requires
        i <= le <= data@.len(),
    ensures
        r is Some ==> i <= r->0 < le && data@[r->0 as int] == q,
{
    let mut k = i;
    while k < le
        invariant
            i <= k <= le <= data@.len(),
        decreases le - k,
    {
        if data[k] == q {
            return Some(k);
        }
        if data[k] == BACKSLASH && k + 1 < le {
            k = k + 2;
        } else {
            k = k + 1;
        }
    }
    None
}

/// The `}` that closes a brace whose interior starts at `i`: bare braces are
/// counted and braces inside double quotes are skipped. With `double`, the
/// close must be `}}`.
pub(crate) fn find_brace_close(data: &[u8], i: usize, le: usize, double: bool) -> (r: Option<usize>)
    requires
        i <= le <= data@.len(),
    ensures
        r is Some ==> i <= r->0 < le && data@[r->0 as int] == RBRACE && (double ==> r->0 + 1 < le
            && data@[r->0 + 1] == RBRACE),
{
    let mut k = i;
    let mut level: usize = 0;
    while k < le
        invariant
            i <= k <= le <= data@.len(),
            level <= k - i,
        decreases le - k,
    {
        let b = data[k];
        if b == DQUOTE {
            match find_quote_end(data, k + 1, le, DQUOTE) {
                Some(e) => {
                    k = e + 1;
                },
                None => {
                    return None;
                },
            }
        } else if b == LBRACE {
            level = level + 1;
            k = k + 1;
        } else if b == RBRACE {
            if level == 0 {
                if !double {
                    return Some(k);
                }
                if k + 1 < le && data[k + 1] == RBRACE {
                    return Some(k);
                }
                k = k + 1;
            } else {
                level = level - 1;
                k = k + 1;
            }
        } else {
            k = k + 1;
        }
    }
    None
}

/// The handle of bytes `a..b` of chunk `ci`.
pub open spec fn handle(ci: u32, a: int, b: int) -> ChunkSlice {
    ChunkSlice { chunk_idx: ci, start: a as u32, end: b as u32 }
}

/// The span of bytes `a..b` of a chunk whose first byte has stream offset `base`.
pub open spec fn span_range(base: u64, a: int, b: int) -> Span {
    Span { start: (base + a) as u64, end: (base + b) as u64 }
}

/// The handle of `a..b` in chunk `ci`.
pub(crate) fn slice_of(ci: u32, a: usize, b: usize) -> (r: ChunkSlice)
    requires
        a <= b <= u32::MAX,
    ensures
        r.chunk_idx == ci,
        r.start == a,
        r.end == b,
        r == handle(ci, a as int, b as int),
{
    ChunkSlice::new(ci, a as u32, b as u32)
}

/// The span of `a..b` in a chunk whose first byte has stream offset `base`.
pub(crate) fn span_at(base: u64, a: usize, b: usize) -> (r: Span)
    requires
        a <= b,
        base + b <= u64::MAX,
    ensures
        r.start == base + a,
        r.end == base + b,
        r == span_range(base, a as int, b as int),
{
    Span::new(base + a as u64, base + b as u64)
}

/// Chunk coordinates fit handles, and stream offsets fit 64 bits.
pub open spec fn chunk_fits(data: Seq<u8>, base: u64) -> bool {
    data.len() <= u32::MAX && base + data.len() <= u64::MAX
}

/// The value event for the bare lexeme `a..b`.
pub(crate) fn scalar_event(data: &[u8], ci: u32, base: u64, a: usize, b: usize) -> (ev: StreamingEvent)
    requires
        a <= b <= data@.len(),
        chunk_fits(data@, base),
    ensures
        is_value_start(ev),
        !(ev is ArrayStart),
        span_of(ev).start == base + a,
        all_handles(ev, in_line(ci, data@.len() as nat)),
{
    let sp = span_at(base, a, b);
    let lex = slice_of(ci, a, b);
    let t = &data[a..b];
    let n = t.len();
    let c = classify(t);
    proof {
        if c is Complex {
            crate::scalar::lemma_complex_split_bounds(t@);
        }
    }
    match c {
        Scalar::Nil => StreamingEvent::NilValue { span: sp },
        Scalar::Bool(v) => StreamingEvent::BoolValue { value: v, span: sp },
        Scalar::Integer(v) => StreamingEvent::IntegerValue { value: v, span: sp },
        Scalar::Float => StreamingEvent::FloatValue { lexeme: lex, span: sp },
        Scalar::Rational { numerator, denominator } => StreamingEvent::RationalValue {
            numerator,
            denominator,
            span: sp,
        },
        Scalar::Complex { split } => {
            let re = if split > 0 {
                Some(slice_of(ci, a, a + split))
            } else {
                None
            };
            StreamingEvent::ComplexValue { real: re, imag: slice_of(ci, a + split, b - 1), span: sp }
        },
        Scalar::Date => StreamingEvent::DateValue { value: lex, span: sp },
        Scalar::Time => StreamingEvent::TimeValue { value: lex, span: sp },
        Scalar::DateTime => StreamingEvent::DateTimeValue { value: lex, span: sp },
        Scalar::Duration => StreamingEvent::DurationValue { value: lex, span: sp },
        Scalar::RelativeTime => StreamingEvent::RelativeTimeValue { value: lex, span: sp },
        Scalar::Str => StreamingEvent::StringValue { value: lex, span: sp },
    }
}

/// A value that starts at `i`: a quoted string, or a bare lexeme that ends at a
/// space (and, inside an array, at a bracket). Returns the value event, where
/// the value ends, and the error to report when a quote is left open.
pub(crate) fn read_value(data: &[u8], ci: u32, base: u64, i: usize, le: usize, in_array: bool, in_braces: bool) -> (r: (
    StreamingEvent,
    usize,
    Option<ParseErrorCode>,
))
    requires
        i < le <= data@.len(),
        chunk_fits(data@, base),
    ensures
        is_value_start(r.0),
        !(r.0 is ArrayStart),
        span_of(r.0).start == base + i,
        all_handles(r.0, in_line(ci, data@.len() as nat)),
        i < r.1 <= le,
{
    let q = data[i];
    if q == DQUOTE || q == QUOTE {
        match find_quote_end(data, i + 1, le, q) {
            Some(e) => (
                StreamingEvent::QuotedStringValue {
                    value: slice_of(ci, i + 1, e),
                    span: span_at(base, i, e + 1),
                },
                e + 1,
                None,
            ),
            None => (
                StreamingEvent::QuotedStringValue {
                    value: slice_of(ci, i + 1, le),
                    span: span_at(base, i, le),
                },
                le,
                Some(
                    if q == DQUOTE {
                        ParseErrorCode::UnclosedString
                    } else {
                        ParseErrorCode::UnclosedQuote
                    },
                ),
            ),
        }
    } else {
        let mut k = i;
        while k < le && data[k] != SPACE && !(in_array && (data[k] == RBRACKET || data[k] == LBRACKET)) && !(
        in_braces && data[k] == RBRACE)
            invariant
                i <= k <= le <= data@.len(),
            decreases le - k,
        {
            k = k + 1;
        }
        if k == i {
            k = i + 1;
        }
        (scalar_event(data, ci, base, i, k), k, None)
    }
}

/// Whether the `|` at `i` opens an element.
pub(crate) fn opens_element_at(data: &[u8], i: usize, le: usize) -> (r: bool)
    requires
        i < le <= data@.len(),
    ensures
        r ==> i + 1 < le && data@[i as int] == PIPE,
        data@[i as int] == PIPE && i + 1 < le && name_start(data@[i + 1]) ==> r,
{
    if data[i] != PIPE || le - i < 2 {
        return false;
    }
    let n = data[i + 1];
    if is_name_start(n) || n == LBRACKET || n == DOT || n == QUOTE {
        return true;
    }
    n == SPACE && skip_spaces(data, i + 1, le) < le
}

/// Whether `!` at `p` starts an inline directive `!name{` or `!ns:name{`.
pub(crate) fn inline_directive_at(data: &[u8], p: usize, le: usize) -> (r: bool)
    requires
        p < le <= data@.len(),
{
    let n1 = scan_label(data, p + 1, le);
    let ne = if n1 < le && le - n1 > 1 && data[n1] == COLON && is_label_byte(data[n1 + 1]) {
        scan_label(data, n1 + 1, le)
    } else {
        n1
    };
    ne < le && data[ne] == LBRACE
}

} // verus!
