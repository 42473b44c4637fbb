//! Classification of value lexemes: nil, booleans, numbers in several bases,
//! floats, rationals, complex numbers, calendar values, durations, strings.
//!
//! Rules are tried in a fixed order and the first that accepts wins; a rule
//! whose numeric decoding fails lets the next rule try.
use vstd::prelude::*;

verus! {

/// Outcome of classifying a lexeme.
#[derive(Debug, Clone, Copy, PartialEq, Eq, Structural)]
pub enum Scalar {
    Nil,
    Bool(bool),
    Integer(i64),
    /// A decimal float; the lexeme itself is the value's text.
    Float,
    Rational { numerator: i64, denominator: i64 },
    /// A complex number `[real]±imag i`; the imaginary part starts at `split`
    /// (0 when there is no real part) and ends before the trailing `i`.
    Complex { split: usize },
    Date,
    Time,
    DateTime,
    Duration,
    RelativeTime,
    Str,
}

pub open spec fn is_dec(b: u8) -> bool {
    48 <= b <= 57
}

/// Value of `b` as a digit in `base`, or -1 when it is none.
pub open spec fn digit_val(b: u8, base: int) -> int {
    if 48 <= b <= 57 && (b - 48) < base {
        b - 48
    } else if base == 16 && 97 <= b <= 102 {
        b - 87
    } else if base == 16 && 65 <= b <= 70 {
        b - 55
    } else {
        -1
    }
}

/// Every byte is a digit of `base` or a `_` separator, and there is at least one digit.
pub open spec fn is_digits(s: Seq<u8>, base: int) -> bool {
    &&& forall|i: int| 0 <= i < s.len() ==> s[i] == 95u8 || digit_val(#[trigger] s[i], base) >= 0
    &&& exists|i: int| 0 <= i < s.len() && s[i] != 95u8
}

/// The number the digits of `s` spell in `base`, separators skipped.
pub open spec fn digits_value(s: Seq<u8>, base: int) -> int
    decreases s.len(),
{
    if s.len() == 0 {
        0
    } else if s.last() == 95u8 {
        digits_value(s.drop_last(), base)
    } else {
        digits_value(s.drop_last(), base) * base + digit_val(s.last(), base)
    }
}

pub const I64_MAGNITUDE: u64 = 0x8000_0000_0000_0000;

/// A signed integer lexeme body: digits whose value fits a signed 64-bit integer.
pub open spec fn signed_digits(negative: bool, s: Seq<u8>, base: int) -> Option<int> {
    if is_digits(s, base) && digits_value(s, base) <= (if negative {
        I64_MAGNITUDE as int
    } else {
        I64_MAGNITUDE as int - 1
    }) {
        Some(if negative { -digits_value(s, base) } else { digits_value(s, base) })
    } else {
        None
    }
}

/// Whether the lexeme starts with `-`.
pub open spec fn has_minus(s: Seq<u8>) -> bool {
    s.len() > 0 && s[0] == 45u8
}

/// The lexeme without a leading `-`.
pub open spec fn unsigned_part(s: Seq<u8>) -> Seq<u8> {
    if has_minus(s) {
        s.drop_first()
    } else {
        s
    }
}

/// Base named by the letter after a leading `0`, or 0.
pub open spec fn base_of_prefix(b: u8) -> int {
    if b == 120u8 || b == 88u8 {
        16
    } else if b == 111u8 || b == 79u8 {
        8
    } else if b == 98u8 || b == 66u8 {
        2
    } else if b == 100u8 || b == 68u8 {
        10
    } else {
        0
    }
}

/// `-`? `0x|0o|0b|0d` digits.
pub open spec fn based_integer(s: Seq<u8>) -> Option<int> {
    let rest = unsigned_part(s);
    if rest.len() >= 2 && rest[0] == 48u8 && base_of_prefix(rest[1]) != 0 {
        signed_digits(has_minus(s), rest.subrange(2, rest.len() as int), base_of_prefix(rest[1]))
    } else {
        None
    }
}

/// `-`? decimal digits.
pub open spec fn decimal_integer(s: Seq<u8>) -> Option<int> {
    signed_digits(has_minus(s), unsigned_part(s), 10)
}

// States of the decimal-number recognizer.
pub const NUM_START: u8 = 0;
pub const NUM_INT: u8 = 1;
pub const NUM_DOT: u8 = 2;
pub const NUM_FRAC: u8 = 3;
pub const NUM_EXP: u8 = 4;
pub const NUM_EXP_SIGN: u8 = 5;
pub const NUM_EXP_DIGITS: u8 = 6;
pub const NUM_DEAD: u8 = 7;

/// One step of the recognizer of `digits [. digits] [(e|E) [+|-] digits]`,
/// where `_` separators are skipped and a dot needs a digit on one side.
pub open spec fn num_step(st: u8, b: u8) -> u8 {
    if st == NUM_DEAD || b == 95u8 {
        st
    } else if is_dec(b) {
        if st == NUM_START || st == NUM_INT {
            NUM_INT
        } else if st == NUM_DOT || st == NUM_FRAC {
            NUM_FRAC
        } else {
            NUM_EXP_DIGITS
        }
    } else if b == 46u8 {
        if st == NUM_START {
            NUM_DOT
        } else if st == NUM_INT {
            NUM_FRAC
        } else {
            NUM_DEAD
        }
    } else if b == 101u8 || b == 69u8 {
        if st == NUM_INT || st == NUM_FRAC {
            NUM_EXP
        } else {
            NUM_DEAD
        }
    } else if b == 43u8 || b == 45u8 {
        if st == NUM_EXP {
            NUM_EXP_SIGN
        } else {
            NUM_DEAD
        }
    } else {
        NUM_DEAD
    }
}

pub open spec fn num_run(s: Seq<u8>) -> u8
    decreases s.len(),
{
    if s.len() == 0 {
        NUM_START
    } else {
        num_step(num_run(s.drop_last()), s.last())
    }
}

/// A float body: a fraction or an exponent is present.
pub open spec fn float_body(s: Seq<u8>) -> bool {
    num_run(s) == NUM_FRAC || num_run(s) == NUM_EXP_DIGITS
}

/// `-`? float body.
pub open spec fn is_float(s: Seq<u8>) -> bool {
    float_body(unsigned_part(s))
}

/// A component of a complex number: an optionally signed integer or float.
pub open spec fn complex_component(s: Seq<u8>) -> bool {
    let body = if s.len() > 0 && (s[0] == 43u8 || s[0] == 45u8) {
        s.drop_first()
    } else {
        s
    };
    num_run(body) == NUM_INT || float_body(body)
}

/// Greatest `j` in `1..i` where `t[j]` is a sign not preceded by an exponent
/// letter, or 0.
pub open spec fn sign_split(t: Seq<u8>, i: int) -> int
    decreases i,
{
    if i <= 1 {
        0
    } else if (t[i - 1] == 43u8 || t[i - 1] == 45u8) && !(t[i - 2] == 101u8 || t[i - 2]
        == 69u8) {
        i - 1
    } else {
        sign_split(t, i - 1)
    }
}

/// `[real](+|-)imag i` or `imag i`; the result is where the imaginary part starts.
pub open spec fn complex_split(s: Seq<u8>) -> Option<int> {
    if s.len() >= 2 && s.last() == 105u8 {
        let t = s.drop_last();
        let k = sign_split(t, t.len() as int);
        if k > 0 && complex_component(t.subrange(0, k)) && complex_component(
            t.subrange(k, t.len() as int),
        ) {
            Some(k)
        } else if k == 0 && complex_component(t) {
            Some(0)
        } else {
            None
        }
    } else {
        None
    }
}

proof fn lemma_sign_split_bounds(t: Seq<u8>, i: int)
    requires
        i <= t.len(),
    ensures
        0 <= sign_split(t, i) < if i < 1 { 1 } else { i },
    decreases i,
{
    if i > 1 {
        lemma_sign_split_bounds(t, i - 1);
    }
}

/// Where a complex lexeme splits, its parts lie inside it.
pub proof fn lemma_complex_split_bounds(s: Seq<u8>)
    requires
        scalar_of(s) is Complex,
        s.len() <= usize::MAX,
    ensures
        0 <= (scalar_of(s)->split as int) < s.len(),
        (scalar_of(s)->split as int) == complex_split(s)->0,
{
    let t = s.drop_last();
    lemma_sign_split_bounds(t, t.len() as int);
}

/// First index at or after `i` that holds `b`, or -1.
pub open spec fn index_from(s: Seq<u8>, b: u8, i: int) -> int
    decreases s.len() - i,
{
    if i < 0 || i >= s.len() {
        -1
    } else if s[i] == b {
        i
    } else {
        index_from(s, b, i + 1)
    }
}

/// `-`? digits `/` digits `r`, with a nonzero denominator.
pub open spec fn rational_of(s: Seq<u8>) -> Option<(int, int)> {
    let p = index_from(s, 47u8, 0);
    if s.len() >= 2 && s.last() == 114u8 && p >= 0 {
        let num = s.subrange(0, p);
        let den = s.subrange(p + 1, s.len() - 1);
        match (signed_digits(has_minus(num), unsigned_part(num), 10), signed_digits(false, den, 10)) {
            (Some(n), Some(d)) => if d != 0 {
                Some((n, d))
            } else {
                None
            },
            _ => None,
        }
    } else {
        None
    }
}

/// A pair of integers known to fit 64 bits, as machine integers.
pub open spec fn rational_pair(p: (int, int)) -> (i64, i64) {
    (p.0 as i64, p.1 as i64)
}

/// All bytes in `a..b` are decimal digits.
pub open spec fn dec_range(s: Seq<u8>, a: int, b: int) -> bool {
    forall|i: int| a <= i < b ==> is_dec(#[trigger] s[i])
}

/// `YYYY-MM` or `YYYY-MM-DD`.
pub open spec fn is_date(s: Seq<u8>) -> bool {
    &&& (s.len() == 7 || s.len() == 10)
    &&& dec_range(s, 0, 4) && s[4] == 45u8 && dec_range(s, 5, 7)
    &&& s.len() == 10 ==> s[7] == 45u8 && dec_range(s, 8, 10)
}

/// `HH:MM`, `HH:MM:SS` or `HH:MM:SS.frac`.
pub open spec fn is_time(s: Seq<u8>) -> bool {
    &&& s.len() >= 5
    &&& dec_range(s, 0, 2) && s[2] == 58u8 && dec_range(s, 3, 5)
    &&& s.len() > 5 ==> s.len() >= 8 && s[5] == 58u8 && dec_range(s, 6, 8)
    &&& s.len() > 8 ==> s.len() >= 10 && s[8] == 46u8 && dec_range(s, 9, s.len() as int)
}

/// A time followed by `Z`, by `±HH:MM`, or by nothing.
pub open spec fn is_zoned_time(t: Seq<u8>) -> bool {
    ||| t.len() > 0 && t.last() == 90u8 && is_time(t.drop_last())
    ||| t.len() >= 11 && (t[t.len() - 6] == 43u8 || t[t.len() - 6] == 45u8) && dec_range(
        t,
        t.len() - 5,
        t.len() - 3,
    ) && t[t.len() - 3] == 58u8 && dec_range(t, t.len() - 2, t.len() as int) && is_time(
        t.subrange(0, t.len() - 6),
    )
    ||| is_time(t)
}

/// `YYYY-MM-DD` `T` zoned time.
pub open spec fn is_date_time(s: Seq<u8>) -> bool {
    s.len() >= 16 && is_date(s.subrange(0, 10)) && s[10] == 84u8 && is_zoned_time(
        s.subrange(11, s.len() as int),
    )
}

/// Rank of an ISO-8601 duration designator: `Y M W D` before `T`, `H M S` after.
pub open spec fn designator_rank(b: u8, in_time: bool) -> u8 {
    if !in_time {
        if b == 89u8 {
            1
        } else if b == 77u8 {
            2
        } else if b == 87u8 {
            3
        } else if b == 68u8 {
            4
        } else {
            0
        }
    } else {
        if b == 72u8 {
            6
        } else if b == 77u8 {
            7
        } else if b == 83u8 {
            8
        } else {
            0
        }
    }
}

pub const ISO_DEAD: u8 = 255;
pub const ISO_TIME_RANK: u8 = 5;

/// Recognizer state for an ISO duration after its `P`: the rank of the last
/// designator (bits 0-3), digits pending (bit 4), a component seen (bit 5).
pub open spec fn iso_step(st: u8, b: u8) -> u8 {
    let rank = st % 16;
    let pending = (st / 16) % 2 == 1;
    let any = st / 32 == 1;
    let r = designator_rank(b, rank >= ISO_TIME_RANK);
    if st == ISO_DEAD {
        ISO_DEAD
    } else if is_dec(b) {
        (rank + 16 + if any { 32u8 } else { 0u8 }) as u8
    } else if b == 84u8 {
        if !pending && rank < ISO_TIME_RANK {
            (ISO_TIME_RANK + if any { 32u8 } else { 0u8 }) as u8
        } else {
            ISO_DEAD
        }
    } else if r != 0 && pending && r > rank {
        (r + 32) as u8
    } else {
        ISO_DEAD
    }
}

pub open spec fn iso_run(s: Seq<u8>) -> u8
    decreases s.len(),
{
    if s.len() == 0 {
        0
    } else {
        iso_step(iso_run(s.drop_last()), s.last())
    }
}

/// `P[nY][nM][nW][nD][T[nH][nM][nS]]` with at least one component.
pub open spec fn is_iso_duration(s: Seq<u8>) -> bool {
    s.len() >= 2 && s[0] == 80u8 && {
        let st = iso_run(s.drop_first());
        st != ISO_DEAD && st / 32 == 1 && (st / 16) % 2 == 0 && st % 16 != ISO_TIME_RANK
    }
}

/// Length of the unit at the end of a shorthand duration (`mo` or one of
/// `s m h d w y`), or 0.
pub open spec fn shorthand_unit_len(s: Seq<u8>) -> int {
    if s.len() >= 2 && s[s.len() - 2] == 109u8 && s.last() == 111u8 {
        2
    } else if s.len() >= 1 && (s.last() == 115u8 || s.last() == 109u8 || s.last() == 104u8
        || s.last() == 100u8 || s.last() == 119u8 || s.last() == 121u8) {
        1
    } else {
        0
    }
}

/// Decimal digits followed by a unit.
pub open spec fn is_shorthand_duration(s: Seq<u8>) -> bool {
    let u = shorthand_unit_len(s);
    u > 0 && s.len() > u && dec_range(s, 0, s.len() - u)
}

pub open spec fn is_duration(s: Seq<u8>) -> bool {
    is_shorthand_duration(s) || is_iso_duration(s)
}

/// `+` or `-` followed by a duration.
pub open spec fn is_relative_time(s: Seq<u8>) -> bool {
    s.len() >= 2 && (s[0] == 43u8 || s[0] == 45u8) && is_duration(s.drop_first())
}

/// The classification of a lexeme, rule by rule.
pub open spec fn scalar_of(s: Seq<u8>) -> Scalar {
    if s == seq![110u8, 117u8, 108u8, 108u8] || s == seq![110u8, 105u8, 108u8] || s == seq![
        126u8,
    ] {
        Scalar::Nil
    } else if s == seq![116u8, 114u8, 117u8, 101u8] {
        Scalar::Bool(true)
    } else if s == seq![102u8, 97u8, 108u8, 115u8, 101u8] {
        Scalar::Bool(false)
    } else if complex_split(s) is Some {
        Scalar::Complex { split: complex_split(s)->0 as usize }
    } else if rational_of(s) is Some {
        let (n, d) = rational_of(s)->0;
        Scalar::Rational { numerator: n as i64, denominator: d as i64 }
    } else if based_integer(s) is Some {
        Scalar::Integer(based_integer(s)->0 as i64)
    } else if is_float(s) {
        Scalar::Float
    } else if decimal_integer(s) is Some {
        Scalar::Integer(decimal_integer(s)->0 as i64)
    } else if is_date(s) {
        Scalar::Date
    } else if is_time(s) {
        Scalar::Time
    } else if is_date_time(s) {
        Scalar::DateTime
    } else if is_duration(s) {
        Scalar::Duration
    } else if is_relative_time(s) {
        Scalar::RelativeTime
    } else {
        Scalar::Str
    }
}

proof fn lemma_digits_nonneg(s: Seq<u8>, base: int)
    requires
        base >= 2,
        forall|i: int| 0 <= i < s.len() ==> s[i] == 95u8 || digit_val(#[trigger] s[i], base) >= 0,
    ensures
        digits_value(s, base) >= 0,
    decreases s.len(),
{
    if s.len() > 0 {
        let p = s.drop_last();
        assert forall|i: int| 0 <= i < p.len() implies p[i] == 95u8 || digit_val(
            #[trigger] p[i],
            base,
        ) >= 0 by {
            assert(p[i] == s[i]);
        }
        lemma_digits_nonneg(p, base);
        let v = digits_value(p, base);
        assert(v * base >= 0) by (nonlinear_arith)
            requires
                v >= 0,
                base >= 2,
        ;
        assert(s[s.len() - 1] == s.last());
    }
}

fn digit_value(b: u8, base: u64) -> (r: i64)
    requires
        base == 2 || base == 8 || base == 10 || base == 16,
    ensures
        r == digit_val(b, base as int),
{
    if 48 <= b && b <= 57 && ((b - 48) as u64) < base {
        (b - 48) as i64
    } else if base == 16 && 97 <= b && b <= 102 {
        (b - 87) as i64
    } else if base == 16 && 65 <= b && b <= 70 {
        (b - 55) as i64
    } else {
        -1
    }
}

/// Decode the digits of `t` in `base`, negated when `negative`, if they form a
/// signed 64-bit integer.
pub fn parse_digits(t: &[u8], base: u64, negative: bool) -> (r: Option<i64>)
    requires
        base == 2 || base == 8 || base == 10 || base == 16,
    ensures
        signed_digits(negative, t@, base as int) is Some ==> r == Some(
            signed_digits(negative, t@, base as int)->0 as i64,
        ),
        signed_digits(negative, t@, base as int) is None ==> r is None,
{
    let limit: u128 = if negative {
        I64_MAGNITUDE as u128
    } else {
        (I64_MAGNITUDE - 1) as u128
    };
    let mut acc: u128 = 0;
    let mut any = false;
    let mut over = false;
    let mut i: usize = 0;
    while i < t.len()
        invariant
            i <= t.len(),
            base == 2 || base == 8 || base == 10 || base == 16,
            limit == if negative {
                I64_MAGNITUDE as int
            } else {
                I64_MAGNITUDE as int - 1
            },
            forall|j: int| 0 <= j < i ==> t@[j] == 95u8 || digit_val(#[trigger] t@[j], base as int) >= 0,
            any == exists|j: int| 0 <= j < i && t@[j] != 95u8,
            !over ==> acc == digits_value(t@.take(i as int), base as int) && acc <= limit,
            over ==> digits_value(t@.take(i as int), base as int) > limit,
            digits_value(t@.take(i as int), base as int) >= 0,
        decreases t.len() - i,
    {
        let b = t[i];
        let ghost prev = t@.take(i as int);
        let ghost next = t@.take(i as int + 1);
        assert(next.drop_last() =~= prev);
        if b != 95 {
            let d = digit_value(b, base);
            if d < 0 {
                assert(!is_digits(t@, base as int));
                return None;
            }
            let ghost v = digits_value(prev, base as int);
            assert(v * base >= v) by (nonlinear_arith)
                requires
                    v >= 0,
                    base >= 2,
            ;
            if !over {
                assert(acc * base <= 0x8000_0000_0000_0000 * 16) by (nonlinear_arith)
                    requires
                        acc <= 0x8000_0000_0000_0000u128,
                        base <= 16,
                ;
                let n = acc * (base as u128) + d as u128;
                if n > limit {
                    over = true;
                } else {
                    acc = n;
                }
            }
            any = true;
        }
        i = i + 1;
    }
    assert(t@.take(t.len() as int) =~= t@);
    if !any || over {
        return None;
    }
    let v: i128 = if negative {
        -(acc as i128)
    } else {
        acc as i128
    };
    Some(v as i64)
}

/// Run the decimal-number recognizer over `t`.
fn run_num(t: &[u8]) -> (r: u8)
    ensures
        r == num_run(t@),
{
    let mut st: u8 = NUM_START;
    let mut i: usize = 0;
    while i < t.len()
        invariant
            i <= t.len(),
            st == num_run(t@.take(i as int)),
        decreases t.len() - i,
    {
        assert(t@.take(i as int + 1).drop_last() =~= t@.take(i as int));
        let b = t[i];
        st = if st == NUM_DEAD || b == 95 {
            st
        } else if 48 <= b && b <= 57 {
            if st == NUM_START || st == NUM_INT {
                NUM_INT
            } else if st == NUM_DOT || st == NUM_FRAC {
                NUM_FRAC
            } else {
                NUM_EXP_DIGITS
            }
        } else if b == 46 {
            if st == NUM_START {
                NUM_DOT
            } else if st == NUM_INT {
                NUM_FRAC
            } else {
                NUM_DEAD
            }
        } else if b == 101 || b == 69 {
            if st == NUM_INT || st == NUM_FRAC {
                NUM_EXP
            } else {
                NUM_DEAD
            }
        } else if b == 43 || b == 45 {
            if st == NUM_EXP {
                NUM_EXP_SIGN
            } else {
                NUM_DEAD
            }
        } else {
            NUM_DEAD
        };
        i = i + 1;
    }
    assert(t@.take(t.len() as int) =~= t@);
    st
}

fn float_body_exec(t: &[u8]) -> (r: bool)
    ensures
        r == float_body(t@),
{
    let st = run_num(t);
    st == NUM_FRAC || st == NUM_EXP_DIGITS
}

fn complex_component_exec(t: &[u8]) -> (r: bool)
    ensures
        r == complex_component(t@),
{
    let body = if t.len() > 0 && (t[0] == 43 || t[0] == 45) {
        let b = &t[1..t.len()];
        assert(b@ =~= t@.drop_first());
        b
    } else {
        t
    };
    let st = run_num(body);
    st == NUM_INT || st == NUM_FRAC || st == NUM_EXP_DIGITS
}

fn complex_split_exec(t: &[u8]) -> (r: Option<usize>)
    ensures
        complex_split(t@) is Some ==> r == Some(complex_split(t@)->0 as usize),
        complex_split(t@) is None ==> r is None,
{
    if t.len() < 2 || t[t.len() - 1] != 105 {
        return None;
    }
    let body = &t[0..t.len() - 1];
    assert(body@ =~= t@.drop_last());
    let mut i: usize = body.len();
    while i > 1 && !((body[i - 1] == 43 || body[i - 1] == 45) && !(body[i - 2] == 101
        || body[i - 2] == 69))
        invariant
            i <= body.len(),
            sign_split(body@, body.len() as int) == sign_split(body@, i as int),
        decreases i,
    {
        i = i - 1;
    }
    let k: usize = if i <= 1 {
        0
    } else {
        i - 1
    };
    assert(k == sign_split(body@, body.len() as int));
    if k > 0 {
        let re = &body[0..k];
        let imag = &body[k..body.len()];
        assert(re@ =~= body@.subrange(0, k as int));
        assert(imag@ =~= body@.subrange(k as int, body.len() as int));
        if complex_component_exec(re) && complex_component_exec(imag) {
            Some(k)
        } else {
            None
        }
    } else if complex_component_exec(body) {
        Some(0)
    } else {
        None
    }
}

fn index_of(t: &[u8], b: u8) -> (r: Option<usize>)
    ensures
        index_from(t@, b, 0) >= 0 ==> r == Some(index_from(t@, b, 0) as usize),
        index_from(t@, b, 0) < 0 ==> r is None,
        r is Some ==> r->0 < t@.len() && t@[r->0 as int] == b && index_from(t@, b, 0) == r->0,
{
    let mut i: usize = 0;
    while i < t.len()
        invariant
            i <= t.len(),
            index_from(t@, b, 0) == index_from(t@, b, i as int),
        decreases t.len() - i,
    {
        if t[i] == b {
            return Some(i);
        }
        i = i + 1;
    }
    None
}

fn rational_exec(t: &[u8]) -> (r: Option<(i64, i64)>)
    ensures
        rational_of(t@) is Some ==> r == Some(rational_pair(rational_of(t@)->0)),
        rational_of(t@) is None ==> r is None,
{
    if t.len() < 2 || t[t.len() - 1] != 114 {
        return None;
    }
    let p = match index_of(t, 47) {
        Some(p) => p,
        None => {
            return None;
        },
    };
    let num = &t[0..p];
    assert(num@ =~= t@.subrange(0, p as int));
    if p + 1 > t.len() - 1 {
        assert(index_from(t@, 47u8, 0) == t.len() - 1);
        assert(t@[t.len() - 1] == 114u8);
        return None;
    }
    let den = &t[p + 1..t.len() - 1];
    assert(den@ =~= t@.subrange(p + 1, t.len() - 1));
    let neg = num.len() > 0 && num[0] == 45;
    let digits = if neg {
        let d = &num[1..num.len()];
        assert(d@ =~= num@.drop_first());
        d
    } else {
        num
    };
    assert(neg == has_minus(num@));
    assert(digits@ == unsigned_part(num@));
    let n = parse_digits(digits, 10, neg);
    let d = parse_digits(den, 10, false);
    proof {
        let sn = signed_digits(has_minus(num@), unsigned_part(num@), 10);
        let sd = signed_digits(false, den@, 10);
        if sn is Some {
            lemma_digits_nonneg(unsigned_part(num@), 10);
            assert(-(I64_MAGNITUDE as int) <= sn->0 < I64_MAGNITUDE as int);
            assert(n->0 as int == sn->0);
        }
        if sd is Some {
            lemma_digits_nonneg(den@, 10);
            assert(0 <= sd->0 < I64_MAGNITUDE as int);
            assert(d->0 as int == sd->0);
        }
    }
    assert(index_from(t@, 47u8, 0) == p as int);
    assert(num@ == t@.subrange(0, index_from(t@, 47u8, 0)));
    assert(den@ == t@.subrange(index_from(t@, 47u8, 0) + 1, t@.len() - 1));
    match (n, d) {
        (Some(n), Some(d)) => if d != 0 {
            Some((n, d))
        } else {
            None
        },
        _ => None,
    }
}

fn dec_range_exec(t: &[u8], a: usize, b: usize) -> (r: bool)
    requires
        a <= b <= t.len(),
    ensures
        r == dec_range(t@, a as int, b as int),
{
    let mut i = a;
    while i < b
        invariant
            a <= i <= b <= t.len(),
            dec_range(t@, a as int, i as int),
        decreases b - i,
    {
        if !(48 <= t[i] && t[i] <= 57) {
            return false;
        }
        i = i + 1;
    }
    true
}

fn is_date_exec(t: &[u8]) -> (r: bool)
    ensures
        r == is_date(t@),
{
    if t.len() != 7 && t.len() != 10 {
        return false;
    }
    if !(dec_range_exec(t, 0, 4) && t[4] == 45 && dec_range_exec(t, 5, 7)) {
        return false;
    }
    t.len() == 7 || (t[7] == 45 && dec_range_exec(t, 8, 10))
}

fn is_time_exec(t: &[u8]) -> (r: bool)
    ensures
        r == is_time(t@),
{
    if t.len() < 5 {
        return false;
    }
    if !(dec_range_exec(t, 0, 2) && t[2] == 58 && dec_range_exec(t, 3, 5)) {
        return false;
    }
    if t.len() == 5 {
        return true;
    }
    if !(t.len() >= 8 && t[5] == 58 && dec_range_exec(t, 6, 8)) {
        return false;
    }
    if t.len() == 8 {
        return true;
    }
    t.len() >= 10 && t[8] == 46 && dec_range_exec(t, 9, t.len())
}

fn is_zoned_time_exec(t: &[u8]) -> (r: bool)
    ensures
        r == is_zoned_time(t@),
{
    let n = t.len();
    if n > 0 && t[n - 1] == 90 {
        let s = &t[0..n - 1];
        assert(s@ =~= t@.drop_last());
        if is_time_exec(s) {
            return true;
        }
    }
    if n >= 11 && (t[n - 6] == 43 || t[n - 6] == 45) && dec_range_exec(t, n - 5, n - 3) && t[n
        - 3] == 58 && dec_range_exec(t, n - 2, n) {
        let s = &t[0..n - 6];
        assert(s@ =~= t@.subrange(0, n - 6));
        if is_time_exec(s) {
            return true;
        }
    }
    is_time_exec(t)
}

fn is_date_time_exec(t: &[u8]) -> (r: bool)
    ensures
        r == is_date_time(t@),
{
    if t.len() < 16 {
        return false;
    }
    let d = &t[0..10];
    let z = &t[11..t.len()];
    assert(d@ =~= t@.subrange(0, 10));
    assert(z@ =~= t@.subrange(11, t.len() as int));
    is_date_exec(d) && t[10] == 84 && is_zoned_time_exec(z)
}

fn is_iso_duration_exec(t: &[u8]) -> (r: bool)
    ensures
        r == is_iso_duration(t@),
{
    if t.len() < 2 || t[0] != 80 {
        return false;
    }
    let body = &t[1..t.len()];
    assert(body@ =~= t@.drop_first());
    let mut st: u8 = 0;
    let mut i: usize = 0;
    while i < body.len()
        invariant
            i <= body.len(),
            st == iso_run(body@.take(i as int)),
            st == ISO_DEAD || (st % 16 <= 8 && st < 64),
        decreases body.len() - i,
    {
        assert(body@.take(i as int + 1).drop_last() =~= body@.take(i as int));
        let b = body[i];
        let rank = st % 16;
        let pending = (st / 16) % 2 == 1;
        let any = st / 32 == 1;
        let in_time = rank >= ISO_TIME_RANK;
        let r: u8 = if !in_time {
            if b == 89 {
                1
            } else if b == 77 {
                2
            } else if b == 87 {
                3
            } else if b == 68 {
                4
            } else {
                0
            }
        } else {
            if b == 72 {
                6
            } else if b == 77 {
                7
            } else if b == 83 {
                8
            } else {
                0
            }
        };
        let anybit: u8 = if any {
            32
        } else {
            0
        };
        st = if st == ISO_DEAD {
            ISO_DEAD
        } else if 48 <= b && b <= 57 {
            rank + 16 + anybit
        } else if b == 84 {
            if !pending && rank < ISO_TIME_RANK {
                ISO_TIME_RANK + anybit
            } else {
                ISO_DEAD
            }
        } else if r != 0 && pending && r > rank {
            r + 32
        } else {
            ISO_DEAD
        };
        i = i + 1;
    }
    assert(body@.take(body.len() as int) =~= body@);
    st != ISO_DEAD && st / 32 == 1 && (st / 16) % 2 == 0 && st % 16 != ISO_TIME_RANK
}

fn is_shorthand_duration_exec(t: &[u8]) -> (r: bool)
    ensures
        r == is_shorthand_duration(t@),
{
    let n = t.len();
    let u: usize = if n >= 2 && t[n - 2] == 109 && t[n - 1] == 111 {
        2
    } else if n >= 1 && (t[n - 1] == 115 || t[n - 1] == 109 || t[n - 1] == 104 || t[n - 1]
        == 100 || t[n - 1] == 119 || t[n - 1] == 121) {
        1
    } else {
        0
    };
    u > 0 && n > u && dec_range_exec(t, 0, n - u)
}

fn is_duration_exec(t: &[u8]) -> (r: bool)
    ensures
        r == is_duration(t@),
{
    is_shorthand_duration_exec(t) || is_iso_duration_exec(t)
}

/// Classify the lexeme `t`.
pub fn classify(t: &[u8]) -> (r: Scalar)
    ensures
        r == scalar_of(t@),
{
    let n = t.len();
    if (n == 4 && t[0] == 110 && t[1] == 117 && t[2] == 108 && t[3] == 108) || (n == 3 && t[0]
        == 110 && t[1] == 105 && t[2] == 108) || (n == 1 && t[0] == 126) {
        proof {
            if n == 4 {
                assert(t@ =~= seq![110u8, 117u8, 108u8, 108u8]);
            } else if n == 3 {
                assert(t@ =~= seq![110u8, 105u8, 108u8]);
            } else {
                assert(t@ =~= seq![126u8]);
            }
        }
        return Scalar::Nil;
    }
    if n == 4 && t[0] == 116 && t[1] == 114 && t[2] == 117 && t[3] == 101 {
        assert(t@ =~= seq![116u8, 114u8, 117u8, 101u8]);
        return Scalar::Bool(true);
    }
    if n == 5 && t[0] == 102 && t[1] == 97 && t[2] == 108 && t[3] == 115 && t[4] == 101 {
        assert(t@ =~= seq![102u8, 97u8, 108u8, 115u8, 101u8]);
        return Scalar::Bool(false);
    }
    proof {
        if t@ == seq![110u8, 117u8, 108u8, 108u8] {
            assert(t@[3] == 108u8);
        }
        if t@ == seq![110u8, 105u8, 108u8] {
            assert(t@[2] == 108u8);
        }
        if t@ == seq![126u8] {
            assert(t@[0] == 126u8);
        }
        if t@ == seq![116u8, 114u8, 117u8, 101u8] {
            assert(t@[3] == 101u8);
        }
        if t@ == seq![102u8, 97u8, 108u8, 115u8, 101u8] {
            assert(t@[4] == 101u8);
        }
    }
    if let Some(k) = complex_split_exec(t) {
        return Scalar::Complex { split: k };
    }
    if let Some((num, den)) = rational_exec(t) {
        return Scalar::Rational { numerator: num, denominator: den };
    }
    let neg = n > 0 && t[0] == 45;
    let rest = if neg {
        let r = &t[1..t.len()];
        assert(r@ =~= t@.drop_first());
        r
    } else {
        t
    };
    assert(rest@ == unsigned_part(t@));
    if rest.len() >= 2 && rest[0] == 48 {
        let p = rest[1];
        let base: u64 = if p == 120 || p == 88 {
            16
        } else if p == 111 || p == 79 {
            8
        } else if p == 98 || p == 66 {
            2
        } else if p == 100 || p == 68 {
            10
        } else {
            0
        };
        if base != 0 {
            let digits = &rest[2..rest.len()];
            assert(digits@ =~= rest@.subrange(2, rest@.len() as int));
            if let Some(v) = parse_digits(digits, base, neg) {
                return Scalar::Integer(v);
            }
        }
    }
    if float_body_exec(rest) {
        return Scalar::Float;
    }
    if let Some(v) = parse_digits(rest, 10, neg) {
        return Scalar::Integer(v);
    }
    if is_date_exec(t) {
        return Scalar::Date;
    }
    if is_time_exec(t) {
        return Scalar::Time;
    }
    if is_date_time_exec(t) {
        return Scalar::DateTime;
    }
    if is_duration_exec(t) {
        return Scalar::Duration;
    }
    if n >= 2 && (t[0] == 43 || t[0] == 45) {
        let body = &t[1..t.len()];
        assert(body@ =~= t@.drop_first());
        if is_duration_exec(body) {
            return Scalar::RelativeTime;
        }
    }
    Scalar::Str
}

} // verus!
