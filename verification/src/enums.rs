//! The shared vocabulary of the pipeline: the tagged runtime value, the tagged
//! instruction format, the discriminated error type, and the textual rendering
//! of values.

use crate::lexer::Token;
use crate::lexer::TokenView;
use vstd::prelude::*;

verus! {

/// A host-provided (built-in) function, identified by tag. Two host-function
/// values are equal exactly when they name the same built-in.
#[derive(Clone, Copy, PartialEq, Eq, Structural, Debug)]
pub enum HostFn {
    /// Renders its single argument and appends the text to the output.
    Print,
}

/// A floating-point literal, kept exactly as the decimal the tokenizer read:
/// the digits before the point, the digits after it as an integer, and how
/// many digits stood after the point. The fraction is normalized (trailing
/// zero digits are stripped), so two spellings of the same decimal compare
/// equal. This keeps the whole pipeline in integer arithmetic.
#[derive(Clone, Copy, PartialEq, Eq, Structural, Debug)]
pub struct FloatLit {
    /// Digits before the point.
    pub whole: i64,
    /// Digits after the point, read as one integer.
    pub frac: i64,
    /// How many digits stood after the point, once normalized.
    pub frac_len: usize,
}

/// A tagged runtime value.
#[derive(Debug)]
pub enum Value {
    Nil,
    String(Vec<u8>),
    Boolean(bool),
    Float(FloatLit),
    Integer(i64),
    Function(HostFn),
}

/// The mathematical model of a `Value`: string payloads become sequences.
pub enum ValueView {
    Nil,
    Str(Seq<u8>),
    Boolean(bool),
    Float(FloatLit),
    Integer(i64),
    Function(HostFn),
}

impl View for Value {
    type V = ValueView;

    open spec fn view(&self) -> ValueView {
        match self {
            Value::Nil => ValueView::Nil,
            Value::String(s) => ValueView::Str(s@),
            Value::Boolean(b) => ValueView::Boolean(*b),
            Value::Float(f) => ValueView::Float(*f),
            Value::Integer(i) => ValueView::Integer(*i),
            Value::Function(h) => ValueView::Function(*h),
        }
    }
}

/// Byte-wise equality of two byte vectors.
pub fn bytes_eq(a: &Vec<u8>, b: &Vec<u8>) -> (r: bool)
    ensures
        r == (a@ == b@),
{
    if a.len() != b.len() {
        return false;
    }
    let mut i: usize = 0;
    while i < a.len()
        invariant
            i <= a.len(),
            a.len() == b.len(),
            forall|j: int| 0 <= j < i ==> a@[j] == b@[j],
        decreases a.len() - i,
    {
        if a[i] != b[i] {
            return false;
        }
        i += 1;
    }
    proof {
        assert(a@ =~= b@);
    }
    true
}

/// An exact copy of a byte vector.
pub fn clone_bytes(v: &Vec<u8>) -> (r: Vec<u8>)
    ensures
        r@ == v@,
{
    let mut r: Vec<u8> = Vec::new();
    let mut i: usize = 0;
    while i < v.len()
        invariant
            i <= v.len(),
            r@ == v@.take(i as int),
        decreases v.len() - i,
    {
        r.push(v[i]);
        proof {
            assert(v@.take(i + 1 as int) =~= v@.take(i as int).push(v@[i as int]));
        }
        i += 1;
    }
    proof {
        assert(v@.take(v@.len() as int) =~= v@);
    }
    r
}

impl Clone for Value {
    /// Values are cloned when pushed or loaded; the copy models identically.
    fn clone(&self) -> (r: Self)
        ensures
            r@ == self@,
    {
        match self {
            Value::Nil => Value::Nil,
            Value::String(s) => Value::String(clone_bytes(s)),
            Value::Boolean(b) => Value::Boolean(*b),
            Value::Float(f) => Value::Float(*f),
            Value::Integer(i) => Value::Integer(*i),
            Value::Function(h) => Value::Function(*h),
        }
    }
}

impl PartialEq for Value {
    /// Structural equality: scalars and text by content, host functions by
    /// identity of the built-in; an integer never equals a float.
    fn eq(&self, other: &Self) -> (r: bool)
        ensures
            r == (self@ == other@),
    {
        match (self, other) {
            (Value::Nil, Value::Nil) => true,
            (Value::Boolean(a), Value::Boolean(b)) => *a == *b,
            (Value::Integer(a), Value::Integer(b)) => *a == *b,
            (Value::Float(a), Value::Float(b)) => *a == *b,
            (Value::String(a), Value::String(b)) => bytes_eq(a, b),
            (Value::Function(a), Value::Function(b)) => *a == *b,
            _ => false,
        }
    }
}

impl vstd::std_specs::cmp::PartialEqSpecImpl for Value {
    open spec fn obeys_eq_spec() -> bool {
        true
    }

    open spec fn eq_spec(&self, other: &Self) -> bool {
        self@ == other@
    }
}

/// Every failure of the pipeline, as a value: lexical errors, syntax errors,
/// and runtime errors. Each carries the offending input where there is one.
#[derive(Debug)]
pub enum LuaError {
    /// A byte that starts no lexeme.
    UnexpectedCharacter(u8),
    /// A quoted string whose closing quote never comes.
    UnterminatedString,
    /// A numeric literal followed by an alphabetic character or a second point.
    MalformedNumber,
    /// A numeric literal whose digits exceed the 64-bit signed range.
    IntegerOverflow,
    /// A `0x`/`0X` literal: an unimplemented extension point.
    HexNumbersUnsupported,
    /// An `e`/`E` exponent: an unimplemented extension point.
    ScientificNotationUnsupported,
    /// A `--[` long comment: an unimplemented extension point.
    LongCommentsUnsupported,
    /// A token that starts no statement.
    UnexpectedToken(Token),
    /// After a callee name, a token that is neither `(` nor a string literal.
    ExpectedArgument(Token),
    /// A call argument that is not a supported literal.
    InvalidArgument(Token),
    /// A token in place of the closing `)`.
    ExpectedCloseParen(Token),
    /// A 257th distinct constant: indices must fit 8 bits.
    TooManyConstants,
    /// A global-name constant that is not a string.
    InvalidGlobalKey(Value),
    /// A call through a value that is not a function.
    NotAFunction(Value),
    /// A stack access beyond the next free slot.
    StackIndexOutOfBounds,
    /// An instruction naming a constant the pool does not hold.
    ConstantIndexOutOfBounds,
}

/// The mathematical model of a `LuaError`.
pub enum ErrorView {
    UnexpectedCharacter(u8),
    UnterminatedString,
    MalformedNumber,
    IntegerOverflow,
    HexNumbersUnsupported,
    ScientificNotationUnsupported,
    LongCommentsUnsupported,
    UnexpectedToken(TokenView),
    ExpectedArgument(TokenView),
    InvalidArgument(TokenView),
    ExpectedCloseParen(TokenView),
    TooManyConstants,
    InvalidGlobalKey(ValueView),
    NotAFunction(ValueView),
    StackIndexOutOfBounds,
    ConstantIndexOutOfBounds,
}

impl View for LuaError {
    type V = ErrorView;

    open spec fn view(&self) -> ErrorView {
        match self {
            LuaError::UnexpectedCharacter(b) => ErrorView::UnexpectedCharacter(*b),
            LuaError::UnterminatedString => ErrorView::UnterminatedString,
            LuaError::MalformedNumber => ErrorView::MalformedNumber,
            LuaError::IntegerOverflow => ErrorView::IntegerOverflow,
            LuaError::HexNumbersUnsupported => ErrorView::HexNumbersUnsupported,
            LuaError::ScientificNotationUnsupported => ErrorView::ScientificNotationUnsupported,
            LuaError::LongCommentsUnsupported => ErrorView::LongCommentsUnsupported,
            LuaError::UnexpectedToken(t) => ErrorView::UnexpectedToken(t@),
            LuaError::ExpectedArgument(t) => ErrorView::ExpectedArgument(t@),
            LuaError::InvalidArgument(t) => ErrorView::InvalidArgument(t@),
            LuaError::ExpectedCloseParen(t) => ErrorView::ExpectedCloseParen(t@),
            LuaError::TooManyConstants => ErrorView::TooManyConstants,
            LuaError::InvalidGlobalKey(v) => ErrorView::InvalidGlobalKey(v@),
            LuaError::NotAFunction(v) => ErrorView::NotAFunction(v@),
            LuaError::StackIndexOutOfBounds => ErrorView::StackIndexOutOfBounds,
            LuaError::ConstantIndexOutOfBounds => ErrorView::ConstantIndexOutOfBounds,
        }
    }
}

/// A fixed-width instruction. Operands are stack-slot indices (8-bit),
/// constant-pool indices (8-bit), or small signed immediates (16-bit).
#[derive(Clone, Copy, PartialEq, Eq, Structural, Debug)]
pub enum ByteCode {
    /// Look the named global up and write it to the target slot:
    /// target slot, constant index of the global's name.
    GetGlobal(u8, u8),
    /// Copy a constant onto the stack: target slot, constant index.
    LoadConst(u8, u8),
    /// Invoke the value in a slot: callee slot, argument count.
    Call(u8, u8),
    /// Write nil to the target slot.
    LoadNil(u8),
    /// Write a boolean to the target slot.
    LoadBool(u8, bool),
    /// Write a small integer immediate to the target slot.
    LoadInteger(u8, i16),
}

/// The decimal digits of a natural number, most significant first.
pub open spec fn dec_digits(n: nat) -> Seq<u8>
    decreases n,
{
    if n < 10 {
        seq![(n + 48) as u8]
    } else {
        dec_digits(n / 10).push((n % 10 + 48) as u8)
    }
}

/// The decimal rendering of an integer: a minus sign for negatives, then digits.
pub open spec fn dec_repr(i: int) -> Seq<u8> {
    if i < 0 {
        seq![45u8] + dec_digits((-i) as nat)
    } else {
        dec_digits(i as nat)
    }
}

/// `n` ASCII zero digits (none when `n` is not positive).
pub open spec fn zeros(n: int) -> Seq<u8>
    decreases n,
{
    if n <= 0 {
        Seq::empty()
    } else {
        zeros(n - 1).push(48u8)
    }
}

/// The digits after the point: the fraction left-padded with zeros to its
/// written width, or a single zero when no digits stood after the point.
pub open spec fn frac_repr(f: FloatLit) -> Seq<u8> {
    if f.frac_len == 0 {
        seq![48u8]
    } else {
        zeros(f.frac_len - dec_repr(f.frac as int).len()) + dec_repr(f.frac as int)
    }
}

/// The rendering of a float literal: whole part, point, fraction digits.
pub open spec fn render_float(f: FloatLit) -> Seq<u8> {
    dec_repr(f.whole as int) + seq![46u8] + frac_repr(f)
}

/// The textual rendering of a value, as `print` writes it.
pub open spec fn render_value(v: ValueView) -> Seq<u8> {
    match v {
        ValueView::Nil => seq![110u8, 105u8, 108u8],
        ValueView::Boolean(b) => if b {
            seq![116u8, 114u8, 117u8, 101u8]
        } else {
            seq![102u8, 97u8, 108u8, 115u8, 101u8]
        },
        ValueView::Integer(i) => dec_repr(i as int),
        ValueView::Float(f) => render_float(f),
        ValueView::Str(s) => s,
        ValueView::Function(_) => seq![102u8, 117u8, 110u8, 99u8, 116u8, 105u8, 111u8, 110u8],
    }
}

/// Appends the decimal digits of `n` to `out`.
fn push_dec(out: &mut Vec<u8>, n: u64)
    ensures
        final(out)@ == old(out)@ + dec_digits(n as nat),
    decreases n,
{
    if n >= 10 {
        push_dec(out, n / 10);
        out.push((n % 10) as u8 + 48);
        proof {
            assert(out@ =~= old(out)@ + dec_digits(n as nat));
        }
    } else {
        out.push(n as u8 + 48);
        proof {
            assert(out@ =~= old(out)@ + dec_digits(n as nat));
        }
    }
}

/// Appends the bytes of `src` to `out`.
pub fn push_all(out: &mut Vec<u8>, src: &Vec<u8>)
    ensures
        final(out)@ == old(out)@ + src@,
{
    let mut i: usize = 0;
    while i < src.len()
        invariant
            i <= src.len(),
            out@ == old(out)@ + src@.take(i as int),
        decreases src.len() - i,
    {
        out.push(src[i]);
        proof {
            assert(old(out)@ + src@.take(i + 1 as int) =~= (old(out)@ + src@.take(i as int)).push(
                src@[i as int],
            ));
        }
        i += 1;
    }
    proof {
        assert(old(out)@ + src@.take(src@.len() as int) =~= old(out)@ + src@);
    }
}

/// The decimal rendering of a 64-bit signed integer.
pub fn int_to_dec(i: i64) -> (r: Vec<u8>)
    ensures
        r@ == dec_repr(i as int),
{
    let mut out: Vec<u8> = Vec::new();
    if i >= 0 {
        push_dec(&mut out, i as u64);
        proof {
            assert(out@ =~= dec_repr(i as int));
        }
    } else {
        out.push(45);
        let m: u64 = ((-(i + 1)) as u64) + 1;
        proof {
            assert(m as int == -(i as int));
        }
        push_dec(&mut out, m);
        proof {
            assert(out@ =~= dec_repr(i as int));
        }
    }
    out
}

impl Value {
    /// The textual rendering of this value, one `print` line without the
    /// line break: `nil`, `true`/`false`, decimal digits, the decimal the
    /// float literal was written as, the raw text of a string, or the word
    /// `function`.
    pub fn render(&self) -> (r: Vec<u8>)
        ensures
            r@ == render_value(self@),
    {
        match self {
            Value::Nil => {
                let mut out: Vec<u8> = Vec::new();
                out.push(110);
                out.push(105);
                out.push(108);
                proof {
                    assert(out@ =~= render_value(self@));
                }
                out
            },
            Value::Boolean(b) => {
                let mut out: Vec<u8> = Vec::new();
                if *b {
                    out.push(116);
                    out.push(114);
                    out.push(117);
                    out.push(101);
                } else {
                    out.push(102);
                    out.push(97);
                    out.push(108);
                    out.push(115);
                    out.push(101);
                }
                proof {
                    assert(out@ =~= render_value(self@));
                }
                out
            },
            Value::Integer(i) => int_to_dec(*i),
            Value::Float(f) => {
                let mut out = int_to_dec(f.whole);
                out.push(46);
                if f.frac_len == 0 {
                    out.push(48);
                    proof {
                        assert(out@ =~= render_value(self@));
                    }
                } else {
                    let digits = int_to_dec(f.frac);
                    let mut pad: usize = 0;
                    proof {
                        assert(out@ =~= dec_repr(f.whole as int) + seq![46u8] + zeros(0));
                    }
                    while pad + digits.len() < f.frac_len
                        invariant
                            out@ == dec_repr(f.whole as int) + seq![46u8] + zeros(pad as int),
                            pad + digits.len() <= f.frac_len || pad == 0,
                        decreases f.frac_len - pad,
                    {
                        out.push(48);
                        proof {
                            assert(out@ =~= dec_repr(f.whole as int) + seq![46u8] + zeros(
                                pad + 1 as int,
                            ));
                        }
                        pad += 1;
                    }
                    proof {
                        if pad + digits.len() == f.frac_len {
                            assert(pad as int == f.frac_len - dec_repr(f.frac as int).len());
                        } else {
                            assert(zeros(pad as int) == Seq::<u8>::empty());
                            assert(zeros(f.frac_len - dec_repr(f.frac as int).len())
                                == Seq::<u8>::empty());
                        }
                        assert(zeros(pad as int) == zeros(
                            f.frac_len - dec_repr(f.frac as int).len(),
                        ));
                    }
                    push_all(&mut out, &digits);
                    proof {
                        assert(out@ =~= render_value(self@));
                    }
                }
                out
            },
            Value::String(s) => clone_bytes(s),
            Value::Function(_) => {
                let mut out: Vec<u8> = Vec::new();
                out.push(102);
                out.push(117);
                out.push(110);
                out.push(99);
                out.push(116);
                out.push(105);
                out.push(111);
                out.push(110);
                proof {
                    assert(out@ =~= render_value(self@));
                }
                out
            },
        }
    }
}

} // verus!
