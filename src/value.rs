//! Typed attribute values decoded from a lexeme.
use vstd::prelude::*;
use vstd::slice::slice_to_vec;
use crate::scalar::{classify, scalar_of, Scalar};

verus! {

/// An attribute value with its syntactic type.
///
/// Floats, complex parts and calendar values keep their source text; turning a
/// float into an IEEE-754 number is left to the consumer.
#[derive(Debug, Clone, PartialEq)]
pub enum Value {
    /// `null`, `nil` or `~`.
    Nil,
    /// `true` or `false` (lowercase only).
    Bool(bool),
    /// A decimal or based integer.
    Integer(i64),
    /// A decimal float, as written.
    Float(Vec<u8>),
    /// `num/denr`.
    Rational { numerator: i64, denominator: i64 },
    /// `[real]±imag i`; `real` is empty when absent, `imag` carries its sign.
    Complex { real: Vec<u8>, imag: Vec<u8> },
    /// A bare string.
    String(Vec<u8>),
    /// The interior of a quoted string.
    QuotedString(Vec<u8>),
    Date(Vec<u8>),
    Time(Vec<u8>),
    DateTime(Vec<u8>),
    Duration(Vec<u8>),
    RelativeTime(Vec<u8>),
}

/// `v` is the value that the lexeme `s` denotes.
pub open spec fn denotes(v: Value, s: Seq<u8>) -> bool {
    match scalar_of(s) {
        Scalar::Nil => v is Nil,
        Scalar::Bool(b) => v == Value::Bool(b),
        Scalar::Integer(i) => v == Value::Integer(i),
        Scalar::Float => v is Float && v->Float_0@ == s,
        Scalar::Rational { numerator, denominator } => v == Value::Rational {
            numerator,
            denominator,
        },
        Scalar::Complex { split } => v is Complex && v->real@ == s.subrange(0, split as int)
            && v->imag@ == s.subrange(split as int, s.len() - 1),
        Scalar::Date => v is Date && v->Date_0@ == s,
        Scalar::Time => v is Time && v->Time_0@ == s,
        Scalar::DateTime => v is DateTime && v->DateTime_0@ == s,
        Scalar::Duration => v is Duration && v->Duration_0@ == s,
        Scalar::RelativeTime => v is RelativeTime && v->RelativeTime_0@ == s,
        Scalar::Str => v is String && v->String_0@ == s,
    }
}

impl Value {
    /// Whether this is the nil value.
    pub fn is_nil(&self) -> (r: bool)
        ensures
            r == (*self is Nil),
    {
        match self {
            Value::Nil => true,
            _ => false,
        }
    }

    /// The boolean, if this is one.
    pub fn as_bool(&self) -> (r: Option<bool>)
        ensures
            r == (if *self is Bool {
                Some(self->Bool_0)
            } else {
                None
            }),
    {
        match self {
            Value::Bool(b) => Some(*b),
            _ => None,
        }
    }

    /// The integer, if this is one.
    pub fn as_integer(&self) -> (r: Option<i64>)
        ensures
            r == (if *self is Integer {
                Some(self->Integer_0)
            } else {
                None
            }),
    {
        match self {
            Value::Integer(i) => Some(*i),
            _ => None,
        }
    }

    /// The bytes of a bare or quoted string.
    pub fn as_bytes(&self) -> (r: Option<&[u8]>)
        ensures
            *self is String ==> r is Some && r->0@ == self->String_0@,
            *self is QuotedString ==> r is Some && r->0@ == self->QuotedString_0@,
            !(*self is String || *self is QuotedString) ==> r is None,
    {
        match self {
            Value::String(s) => Some(s.as_slice()),
            Value::QuotedString(s) => Some(s.as_slice()),
            _ => None,
        }
    }

    /// Decode an unquoted lexeme by its syntax.
    pub fn parse(bytes: &[u8]) -> (r: Value)
        ensures
            denotes(r, bytes@),
    {
        let n = bytes.len();
        match classify(bytes) {
            Scalar::Nil => Value::Nil,
            Scalar::Bool(b) => Value::Bool(b),
            Scalar::Integer(i) => Value::Integer(i),
            Scalar::Float => Value::Float(slice_to_vec(bytes)),
            Scalar::Rational { numerator, denominator } => Value::Rational {
                numerator,
                denominator,
            },
            Scalar::Complex { split } => {
                proof {
                    crate::scalar::lemma_complex_split_bounds(bytes@);
                }
                let re = slice_to_vec(&bytes[0..split]);
                let im = slice_to_vec(&bytes[split..bytes.len() - 1]);
                Value::Complex { real: re, imag: im }
            },
            Scalar::Date => Value::Date(slice_to_vec(bytes)),
            Scalar::Time => Value::Time(slice_to_vec(bytes)),
            Scalar::DateTime => Value::DateTime(slice_to_vec(bytes)),
            Scalar::Duration => Value::Duration(slice_to_vec(bytes)),
            Scalar::RelativeTime => Value::RelativeTime(slice_to_vec(bytes)),
            Scalar::Str => Value::String(slice_to_vec(bytes)),
        }
    }
}

} // verus!
