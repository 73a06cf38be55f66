//! The tokenizer: turns a byte stream into lexical tokens, pulled one at a
//! time, with one character of pushback. `spec_next` is the mathematical
//! definition of tokenization; `Lexer::next` is proved to follow it.

use crate::enums::FloatLit;
use crate::enums::LuaError;
use crate::enums::ErrorView;
use vstd::prelude::*;

verus! {

/// The smallest lexical unit of source text.
#[derive(Debug)]
pub enum Token {
    // Keywords.
    And,
    Break,
    Do,
    Else,
    Elseif,
    End,
    False,
    For,
    Function,
    Goto,
    If,
    In,
    Local,
    Nil,
    Not,
    Or,
    Repeat,
    Return,
    Then,
    True,
    Until,
    While,
    // `+  -  *  /  %  ^  #`
    Add,
    Sub,
    Mul,
    Div,
    Mod,
    Pow,
    Len,
    // `&  ~  |  <<  >>  //`
    BitAnd,
    BitXor,
    BitOr,
    ShiftL,
    ShiftR,
    Idiv,
    // `==  ~=  <=  >=  <  >  =`
    Equal,
    NotEq,
    LesEq,
    GreEq,
    Less,
    Greater,
    Assign,
    // `(  )  {  }  [  ]  ::`
    ParL,
    ParR,
    CurlyL,
    CurlyR,
    SqurL,
    SqurR,
    DoubColon,
    // `;  :  ,  .  ..  ...`
    SemiColon,
    Colon,
    Comma,
    Dot,
    Concat,
    Dots,
    /// An identifier, carrying its text.
    VarName(Vec<u8>),
    // Constant values.
    Integer(i64),
    Float(FloatLit),
    String(Vec<u8>),
    /// The end-of-input marker.
    EoF,
}

/// The mathematical model of a `Token`: text payloads become sequences.
pub enum TokenView {
    And,
    Break,
    Do,
    Else,
    Elseif,
    End,
    False,
    For,
    Function,
    Goto,
    If,
    In,
    Local,
    Nil,
    Not,
    Or,
    Repeat,
    Return,
    Then,
    True,
    Until,
    While,
    Add,
    Sub,
    Mul,
    Div,
    Mod,
    Pow,
    Len,
    BitAnd,
    BitXor,
    BitOr,
    ShiftL,
    ShiftR,
    Idiv,
    Equal,
    NotEq,
    LesEq,
    GreEq,
    Less,
    Greater,
    Assign,
    ParL,
    ParR,
    CurlyL,
    CurlyR,
    SqurL,
    SqurR,
    DoubColon,
    SemiColon,
    Colon,
    Comma,
    Dot,
    Concat,
    Dots,
    VarName(Seq<u8>),
    Integer(i64),
    Float(FloatLit),
    Str(Seq<u8>),
    EoF,
}

impl View for Token {
    type V = TokenView;

    open spec fn view(&self) -> TokenView {
        match self {
            Token::And => TokenView::And,
            Token::Break => TokenView::Break,
            Token::Do => TokenView::Do,
            Token::Else => TokenView::Else,
            Token::Elseif => TokenView::Elseif,
            Token::End => TokenView::End,
            Token::False => TokenView::False,
            Token::For => TokenView::For,
            Token::Function => TokenView::Function,
            Token::Goto => TokenView::Goto,
            Token::If => TokenView::If,
            Token::In => TokenView::In,
            Token::Local => TokenView::Local,
            Token::Nil => TokenView::Nil,
            Token::Not => TokenView::Not,
            Token::Or => TokenView::Or,
            Token::Repeat => TokenView::Repeat,
            Token::Return => TokenView::Return,
            Token::Then => TokenView::Then,
            Token::True => TokenView::True,
            Token::Until => TokenView::Until,
            Token::While => TokenView::While,
            Token::Add => TokenView::Add,
            Token::Sub => TokenView::Sub,
            Token::Mul => TokenView::Mul,
            Token::Div => TokenView::Div,
            Token::Mod => TokenView::Mod,
            Token::Pow => TokenView::Pow,
            Token::Len => TokenView::Len,
            Token::BitAnd => TokenView::BitAnd,
            Token::BitXor => TokenView::BitXor,
            Token::BitOr => TokenView::BitOr,
            Token::ShiftL => TokenView::ShiftL,
            Token::ShiftR => TokenView::ShiftR,
            Token::Idiv => TokenView::Idiv,
            Token::Equal => TokenView::Equal,
            Token::NotEq => TokenView::NotEq,
            Token::LesEq => TokenView::LesEq,
            Token::GreEq => TokenView::GreEq,
            Token::Less => TokenView::Less,
            Token::Greater => TokenView::Greater,
            Token::Assign => TokenView::Assign,
            Token::ParL => TokenView::ParL,
            Token::ParR => TokenView::ParR,
            Token::CurlyL => TokenView::CurlyL,
            Token::CurlyR => TokenView::CurlyR,
            Token::SqurL => TokenView::SqurL,
            Token::SqurR => TokenView::SqurR,
            Token::DoubColon => TokenView::DoubColon,
            Token::SemiColon => TokenView::SemiColon,
            Token::Colon => TokenView::Colon,
            Token::Comma => TokenView::Comma,
            Token::Dot => TokenView::Dot,
            Token::Concat => TokenView::Concat,
            Token::Dots => TokenView::Dots,
            Token::VarName(s) => TokenView::VarName(s@),
            Token::Integer(i) => TokenView::Integer(*i),
            Token::Float(f) => TokenView::Float(*f),
            Token::String(s) => TokenView::Str(s@),
            Token::EoF => TokenView::EoF,
        }
    }
}

/// What one pull of the tokenizer yields: a token and the bytes left, or an error.
pub type LexStep = Result<(TokenView, Seq<u8>), ErrorView>;

/// Whitespace: space, tab, carriage return, line feed.
pub open spec fn is_space(b: u8) -> bool {
    b == 32 || b == 9 || b == 13 || b == 10
}

/// An ASCII decimal digit.
pub open spec fn is_digit(b: u8) -> bool {
    48 <= b <= 57
}

/// An ASCII letter.
pub open spec fn is_alpha(b: u8) -> bool {
    (65 <= b <= 90) || (97 <= b <= 122)
}

/// A byte that may start an identifier: a letter or an underscore.
pub open spec fn is_ident_start(b: u8) -> bool {
    is_alpha(b) || b == 95
}

/// A byte that may continue an identifier.
pub open spec fn is_ident_byte(b: u8) -> bool {
    is_ident_start(b) || is_digit(b)
}

/// Drops everything up to and including the first line feed (or terminating
/// zero byte); at the end of input everything is dropped.
pub open spec fn skip_line(s: Seq<u8>) -> Seq<u8>
    decreases s.len(),
{
    if s.len() == 0 {
        s
    } else if s[0] == 10 || s[0] == 0 {
        s.skip(1)
    } else {
        skip_line(s.skip(1))
    }
}

/// Skipping a comment line never grows the stream.
pub proof fn lemma_skip_line_len(s: Seq<u8>)
    ensures
        skip_line(s).len() <= s.len(),
    decreases s.len(),
{
    if s.len() > 0 && s[0] != 10 && s[0] != 0 {
        lemma_skip_line_len(s.skip(1));
    }
}

/// The body of a quoted string: the bytes before the closing quote and the
/// bytes after it, or the unterminated-string error if the input (or a zero
/// byte) ends first.
pub open spec fn scan_str_body(s: Seq<u8>, quote: u8) -> Result<(Seq<u8>, Seq<u8>), ErrorView>
    decreases s.len(),
{
    if s.len() == 0 || s[0] == 0 {
        Err(ErrorView::UnterminatedString)
    } else if s[0] == quote {
        Ok((Seq::empty(), s.skip(1)))
    } else {
        match scan_str_body(s.skip(1), quote) {
            Ok((body, rest)) => Ok((seq![s[0]] + body, rest)),
            Err(e) => Err(e),
        }
    }
}

/// The longest identifier prefix of `s`, and what follows it.
pub open spec fn scan_ident(s: Seq<u8>) -> (Seq<u8>, Seq<u8>)
    decreases s.len(),
{
    if s.len() > 0 && is_ident_byte(s[0]) {
        let (name, rest) = scan_ident(s.skip(1));
        (seq![s[0]] + name, rest)
    } else {
        (Seq::empty(), s)
    }
}

/// The longest digit prefix of `s`, and what follows it.
pub open spec fn scan_digits(s: Seq<u8>) -> (Seq<u8>, Seq<u8>)
    decreases s.len(),
{
    if s.len() > 0 && is_digit(s[0]) {
        let (digits, rest) = scan_digits(s.skip(1));
        (seq![s[0]] + digits, rest)
    } else {
        (Seq::empty(), s)
    }
}

/// The value of a run of ASCII digits, most significant first.
pub open spec fn dec_value(digits: Seq<u8>) -> int
    decreases digits.len(),
{
    if digits.len() == 0 {
        0
    } else {
        dec_value(digits.drop_last()) * 10 + (digits.last() - 48)
    }
}

/// An identifier's token: the matching keyword, or a name token.
pub open spec fn keyword_of(name: Seq<u8>) -> TokenView {
    if name == seq![97u8, 110u8, 100u8] {
        TokenView::And
    } else if name == seq![98u8, 114u8, 101u8, 97u8, 107u8] {
        TokenView::Break
    } else if name == seq![100u8, 111u8] {
        TokenView::Do
    } else if name == seq![101u8, 108u8, 115u8, 101u8] {
        TokenView::Else
    } else if name == seq![101u8, 108u8, 115u8, 101u8, 105u8, 102u8] {
        TokenView::Elseif
    } else if name == seq![101u8, 110u8, 100u8] {
        TokenView::End
    } else if name == seq![102u8, 97u8, 108u8, 115u8, 101u8] {
        TokenView::False
    } else if name == seq![102u8, 111u8, 114u8] {
        TokenView::For
    } else if name == seq![102u8, 117u8, 110u8, 99u8, 116u8, 105u8, 111u8, 110u8] {
        TokenView::Function
    } else if name == seq![103u8, 111u8, 116u8, 111u8] {
        TokenView::Goto
    } else if name == seq![105u8, 102u8] {
        TokenView::If
    } else if name == seq![105u8, 110u8] {
        TokenView::In
    } else if name == seq![108u8, 111u8, 99u8, 97u8, 108u8] {
        TokenView::Local
    } else if name == seq![110u8, 105u8, 108u8] {
        TokenView::Nil
    } else if name == seq![110u8, 111u8, 116u8] {
        TokenView::Not
    } else if name == seq![111u8, 114u8] {
        TokenView::Or
    } else if name == seq![114u8, 101u8, 112u8, 101u8, 97u8, 116u8] {
        TokenView::Repeat
    } else if name == seq![114u8, 101u8, 116u8, 117u8, 114u8, 110u8] {
        TokenView::Return
    } else if name == seq![116u8, 104u8, 101u8, 110u8] {
        TokenView::Then
    } else if name == seq![116u8, 114u8, 117u8, 101u8] {
        TokenView::True
    } else if name == seq![117u8, 110u8, 116u8, 105u8, 108u8] {
        TokenView::Until
    } else if name == seq![119u8, 104u8, 105u8, 108u8, 101u8] {
        TokenView::While
    } else {
        TokenView::VarName(name)
    }
}

/// Strips trailing zero digits from a fraction: the fraction value and its
/// digit count, normalized.
pub open spec fn norm_frac(frac: int, len: int) -> (int, int)
    decreases len,
{
    if len > 0 && frac % 10 == 0 {
        norm_frac(frac / 10, len - 1)
    } else {
        (frac, len)
    }
}

/// The fraction of a float literal, starting right after the point: digits are
/// accumulated, normalized, and joined with the whole part; an exponent letter
/// is an unimplemented extension; a trailing alphabetic byte or second point is
/// malformed; a fraction beyond the 64-bit range overflows.
pub open spec fn scan_fraction(whole: int, s: Seq<u8>) -> LexStep {
    let (digits, rest) = scan_digits(s);
    if dec_value(digits) > i64::MAX {
        Err(ErrorView::IntegerOverflow)
    } else if rest.len() > 0 && (rest[0] == 101 || rest[0] == 69) {
        Err(ErrorView::ScientificNotationUnsupported)
    } else if rest.len() > 0 && (is_alpha(rest[0]) || rest[0] == 46) {
        Err(ErrorView::MalformedNumber)
    } else {
        let (frac, frac_len) = norm_frac(dec_value(digits), digits.len() as int);
        Ok(
            (
                TokenView::Float(
                    FloatLit { whole: whole as i64, frac: frac as i64, frac_len: frac_len as usize },
                ),
                rest,
            ),
        )
    }
}

/// A numeric literal, starting at its first digit: a hexadecimal prefix is an
/// unimplemented extension; a run of digits is a 64-bit integer (or overflows);
/// a point switches to fractional accumulation; an exponent letter is an
/// unimplemented extension; a trailing alphabetic byte is malformed.
pub open spec fn scan_number(s: Seq<u8>) -> LexStep {
    if s.len() >= 2 && s[0] == 48 && (s[1] == 120 || s[1] == 88) {
        Err(ErrorView::HexNumbersUnsupported)
    } else {
        let (digits, rest) = scan_digits(s);
        if dec_value(digits) > i64::MAX {
            Err(ErrorView::IntegerOverflow)
        } else if rest.len() > 0 && rest[0] == 46 {
            scan_fraction(dec_value(digits), rest.skip(1))
        } else if rest.len() > 0 && (rest[0] == 101 || rest[0] == 69) {
            Err(ErrorView::ScientificNotationUnsupported)
        } else if rest.len() > 0 && is_alpha(rest[0]) {
            Err(ErrorView::MalformedNumber)
        } else {
            Ok((TokenView::Integer(dec_value(digits) as i64), rest))
        }
    }
}

/// One pull of the tokenizer: the next token of `s` and the bytes left after
/// it. Whitespace and line comments are skipped; the end of input (or a zero
/// byte) yields the end-of-input marker; any byte that starts no lexeme is an
/// error.
#[verifier::opaque]
pub open spec fn spec_next(s: Seq<u8>) -> LexStep
    decreases s.len(),
{
    if s.len() == 0 {
        Ok((TokenView::EoF, s))
    } else {
        let c = s[0];
        let r = s.skip(1);
        if c == 0 {
            Ok((TokenView::EoF, r))
        } else if is_space(c) {
            spec_next(r)
        } else if c == 43 {
            Ok((TokenView::Add, r))
        } else if c == 42 {
            Ok((TokenView::Mul, r))
        } else if c == 37 {
            Ok((TokenView::Mod, r))
        } else if c == 94 {
            Ok((TokenView::Pow, r))
        } else if c == 35 {
            Ok((TokenView::Len, r))
        } else if c == 38 {
            Ok((TokenView::BitAnd, r))
        } else if c == 124 {
            Ok((TokenView::BitOr, r))
        } else if c == 45 {
            // `-`: a second `-` begins a line comment; `--[` would begin a
            // long comment, which is an unimplemented extension.
            if r.len() > 0 && r[0] == 45 {
                let body = r.skip(1);
                if body.len() > 0 && body[0] == 91 {
                    Err(ErrorView::LongCommentsUnsupported)
                } else {
                    proof {
                        lemma_skip_line_len(body);
                    }
                    spec_next(skip_line(body))
                }
            } else {
                Ok((TokenView::Sub, r))
            }
        } else if c == 47 {
            if r.len() > 0 && r[0] == 47 {
                Ok((TokenView::Idiv, r.skip(1)))
            } else {
                Ok((TokenView::Div, r))
            }
        } else if c == 60 {
            if r.len() > 0 && r[0] == 60 {
                Ok((TokenView::ShiftL, r.skip(1)))
            } else if r.len() > 0 && r[0] == 61 {
                Ok((TokenView::LesEq, r.skip(1)))
            } else {
                Ok((TokenView::Less, r))
            }
        } else if c == 62 {
            if r.len() > 0 && r[0] == 62 {
                Ok((TokenView::ShiftR, r.skip(1)))
            } else if r.len() > 0 && r[0] == 61 {
                Ok((TokenView::GreEq, r.skip(1)))
            } else {
                Ok((TokenView::Greater, r))
            }
        } else if c == 61 {
            if r.len() > 0 && r[0] == 61 {
                Ok((TokenView::Equal, r.skip(1)))
            } else {
                Ok((TokenView::Assign, r))
            }
        } else if c == 126 {
            if r.len() > 0 && r[0] == 61 {
                Ok((TokenView::NotEq, r.skip(1)))
            } else {
                Ok((TokenView::BitXor, r))
            }
        } else if c == 40 {
            Ok((TokenView::ParL, r))
        } else if c == 41 {
            Ok((TokenView::ParR, r))
        } else if c == 123 {
            Ok((TokenView::CurlyL, r))
        } else if c == 125 {
            Ok((TokenView::CurlyR, r))
        } else if c == 91 {
            Ok((TokenView::SqurL, r))
        } else if c == 93 {
            Ok((TokenView::SqurR, r))
        } else if c == 59 {
            Ok((TokenView::SemiColon, r))
        } else if c == 44 {
            Ok((TokenView::Comma, r))
        } else if c == 58 {
            if r.len() > 0 && r[0] == 58 {
                Ok((TokenView::DoubColon, r.skip(1)))
            } else {
                Ok((TokenView::Colon, r))
            }
        } else if c == 46 {
            if r.len() > 0 && r[0] == 46 {
                if r.len() > 1 && r[1] == 46 {
                    Ok((TokenView::Dots, r.skip(2)))
                } else {
                    Ok((TokenView::Concat, r.skip(1)))
                }
            } else {
                Ok((TokenView::Dot, r))
            }
        } else if c == 34 || c == 39 {
            match scan_str_body(r, c) {
                Ok((body, rest)) => Ok((TokenView::Str(body), rest)),
                Err(e) => Err(e),
            }
        } else if is_ident_start(c) {
            let (name, rest) = scan_ident(r);
            Ok((keyword_of(seq![c] + name), rest))
        } else if is_digit(c) {
            scan_number(s)
        } else {
            Err(ErrorView::UnexpectedCharacter(c))
        }
    }
}

/// A nonempty sequence is its first element followed by the rest.
pub proof fn lemma_cons_first(s: Seq<u8>)
    requires
        s.len() > 0,
    ensures
        seq![s[0]] + s.skip(1) == s,
{
    assert(seq![s[0]] + s.skip(1) =~= s);
}

/// The first byte of a sequence, with zero standing for the end of input.
pub open spec fn first_byte(s: Seq<u8>) -> u8 {
    if s.len() == 0 {
        0
    } else {
        s[0]
    }
}

/// A sequence with its first byte consumed, if it has one.
pub open spec fn rest_after(s: Seq<u8>) -> Seq<u8> {
    if s.len() == 0 {
        s
    } else {
        s.skip(1)
    }
}

/// The tokenizer. It owns the source bytes, a cursor, and one slot of
/// pushback: a character read speculatively and found not to belong is held
/// back and handed out again by the next read.
#[derive(Debug)]
pub struct Lexer {
    input: Vec<u8>,
    pos: usize,
    ahead: u8,
    has_ahead: bool,
    last: u8,
    last_was_eof: bool,
}

impl Lexer {
    /// The bytes not yet consumed: the held-back character, if any, then the
    /// bytes from the cursor on.
    pub closed spec fn rest(&self) -> Seq<u8> {
        let tail = if self.pos <= self.input@.len() {
            self.input@.skip(self.pos as int)
        } else {
            Seq::empty()
        };
        if self.has_ahead {
            seq![self.ahead] + tail
        } else {
            tail
        }
    }

    /// Creates a tokenizer over the given source bytes.
    pub fn new(input: Vec<u8>) -> (r: Lexer)
        ensures
            r.rest() == input@,
    {
        let r = Lexer { input, pos: 0, ahead: 0, has_ahead: false, last: 0, last_was_eof: true };
        proof {
            assert(r.rest() =~= r.input@);
        }
        r
    }

    /// Reads one character, the zero byte standing for the end of input.
    fn read_character(&mut self) -> (c: u8)
        ensures
            c == first_byte(old(self).rest()),
            final(self).rest() == rest_after(old(self).rest()),
            !final(self).has_ahead,
            final(self).last == c,
            final(self).last_was_eof == (old(self).rest().len() == 0),
            final(self).input == old(self).input,
    {
        if self.has_ahead {
            self.has_ahead = false;
            self.last = self.ahead;
            self.last_was_eof = false;
            proof {
                assert(self.rest() =~= rest_after(old(self).rest()));
            }
            self.ahead
        } else if self.pos < self.input.len() {
            let c = self.input[self.pos];
            self.pos = self.pos + 1;
            self.last = c;
            self.last_was_eof = false;
            proof {
                assert(self.rest() =~= old(self).rest().skip(1));
            }
            c
        } else {
            self.last = 0;
            self.last_was_eof = true;
            proof {
                assert(self.rest() =~= old(self).rest());
            }
            0
        }
    }

    /// Un-reads the character read last, leaving the stream positioned as if
    /// only the confirmed characters were consumed. Reading past the end of
    /// input is not undone: there is nothing to hold back.
    fn putback_char(&mut self)
        requires
            !old(self).has_ahead,
        ensures
            final(self).rest() == if old(self).last_was_eof {
                old(self).rest()
            } else {
                seq![old(self).last] + old(self).rest()
            },
            final(self).last == old(self).last,
            final(self).last_was_eof == old(self).last_was_eof,
            final(self).input == old(self).input,
    {
        if !self.last_was_eof {
            self.ahead = self.last;
            self.has_ahead = true;
        }
    }

    /// Discards a line comment: everything up to and including the next line
    /// feed. A `[` right after the `--` would begin a long comment, an
    /// unimplemented extension point.
    fn read_comment(&mut self) -> (r: Result<(), LuaError>)
        ensures
            match r {
                Ok(_) => (old(self).rest().len() == 0 || old(self).rest()[0] != 91)
                    && final(self).rest() == skip_line(old(self).rest()),
                Err(e) => old(self).rest().len() > 0 && old(self).rest()[0] == 91 && e@
                    == ErrorView::LongCommentsUnsupported,
            },
    {
        let c = self.read_character();
        if c == 91 {
            return Err(LuaError::LongCommentsUnsupported);
        }
        self.putback_char();
        proof {
            if old(self).rest().len() > 0 {
                lemma_cons_first(old(self).rest());
            }
        }
        loop
            invariant_except_break
                skip_line(old(self).rest()) == skip_line(self.rest()),
            ensures
                skip_line(old(self).rest()) == self.rest(),
            decreases self.rest().len(),
        {
            let ghost pre = self.rest();
            let c = self.read_character();
            if c == 10 || c == 0 {
                proof {
                    assert(skip_line(pre) == self.rest());
                }
                break;
            }
        }
        Ok(())
    }

    /// Accumulates a quoted string until the opening quote recurs; reaching
    /// the end of input first is an unterminated string.
    fn read_literal_strings(&mut self, quote: u8) -> (r: Result<Token, LuaError>)
        ensures
            match r {
                Ok(t) => t matches Token::String(text) && scan_str_body(old(self).rest(), quote)
                    == Ok::<(Seq<u8>, Seq<u8>), ErrorView>((text@, final(self).rest())),
                Err(e) => scan_str_body(old(self).rest(), quote) == Err::<
                    (Seq<u8>, Seq<u8>),
                    ErrorView,
                >(e@),
            },
    {
        let mut text: Vec<u8> = Vec::new();
        loop
            invariant
                scan_str_body(old(self).rest(), quote) == (match scan_str_body(
                    self.rest(),
                    quote,
                ) {
                    Ok((body, rest)) => Ok::<(Seq<u8>, Seq<u8>), ErrorView>((text@ + body, rest)),
                    Err(e) => Err(e),
                }),
            decreases self.rest().len(),
        {
            let ghost pre = self.rest();
            let c = self.read_character();
            if c == 0 {
                return Err(LuaError::UnterminatedString);
            }
            if c == quote {
                proof {
                    assert(text@ + Seq::<u8>::empty() =~= text@);
                }
                return Ok(Token::String(text));
            }
            let ghost tpre = text@;
            text.push(c);
            proof {
                match scan_str_body(self.rest(), quote) {
                    Ok(p) => {
                        assert(tpre + (seq![c] + p.0) =~= text@ + p.0);
                    },
                    Err(_) => {},
                }
            }
        }
    }

    /// Accumulates an identifier (letters, digits, underscores) starting with
    /// `first`, and resolves it against the keyword set.
    fn read_var_names(&mut self, first: u8) -> (t: Token)
        ensures
            ({
                let (name, rest) = scan_ident(old(self).rest());
                t@ == keyword_of(seq![first] + name) && final(self).rest() == rest
            }),
    {
        let mut name: Vec<u8> = Vec::new();
        name.push(first);
        loop
            invariant_except_break
                name@.len() >= 1,
                name@[0] == first,
                scan_ident(old(self).rest()).0 == name@.skip(1) + scan_ident(self.rest()).0,
                scan_ident(old(self).rest()).1 == scan_ident(self.rest()).1,
            ensures
                name@.len() >= 1 && name@[0] == first,
                scan_ident(old(self).rest()).0 == name@.skip(1),
                scan_ident(old(self).rest()).1 == self.rest(),
            decreases self.rest().len(),
        {
            let ghost pre = self.rest();
            let ghost npre = name@;
            let c = self.read_character();
            if ident_byte(c) {
                name.push(c);
                proof {
                    lemma_cons_first(pre);
                    assert(npre.skip(1) + (seq![c] + scan_ident(self.rest()).0) =~= name@.skip(1)
                        + scan_ident(self.rest()).0);
                }
            } else {
                self.putback_char();
                proof {
                    if pre.len() > 0 {
                        lemma_cons_first(pre);
                    }
                    assert(name@.skip(1) + Seq::<u8>::empty() =~= name@.skip(1));
                }
                break;
            }
        }
        let ghost nfull = name@;
        let t = keyword_token(name);
        proof {
            assert(seq![first] + nfull.skip(1) =~= nfull);
        }
        t
    }

    /// A numeric literal whose first digit was `first`: a digit run read as a
    /// 64-bit integer, switching to fractional accumulation at a point;
    /// hexadecimal and scientific forms are unimplemented extension points.
    fn read_numbers(&mut self, first: u8) -> (r: Result<Token, LuaError>)
        requires
            is_digit(first),
        ensures
            match r {
                Ok(t) => scan_number(seq![first] + old(self).rest()) == Ok::<
                    (TokenView, Seq<u8>),
                    ErrorView,
                >((t@, final(self).rest())),
                Err(e) => scan_number(seq![first] + old(self).rest()) == Err::<
                    (TokenView, Seq<u8>),
                    ErrorView,
                >(e@),
            },
    {
        let ghost s0 = seq![first] + old(self).rest();
        if first == 48 {
            let c2 = self.read_character();
            if c2 == 120 || c2 == 88 {
                return Err(LuaError::HexNumbersUnsupported);
            }
            self.putback_char();
            proof {
                if old(self).rest().len() > 0 {
                    lemma_cons_first(old(self).rest());
                }
            }
        }
        let mut val: u64 = (first - 48) as u64;
        let ghost mut pref: Seq<u8> = seq![first];
        proof {
            assert(seq![first].drop_last() =~= Seq::<u8>::empty());
            assert(dec_value(Seq::<u8>::empty()) == 0);
            assert(seq![first].last() == first);
            assert(dec_value(seq![first]) == dec_value(seq![first].drop_last()) * 10 + (
            seq![first].last() - 48));
            assert(s0.skip(1) =~= old(self).rest());
            assert(seq![first] + scan_digits(old(self).rest()).0 =~= pref + scan_digits(
                self.rest(),
            ).0);
        }
        loop
            invariant
                pref.len() >= 1,
                forall|i: int| 0 <= i < pref.len() ==> is_digit(#[trigger] pref[i]),
                scan_digits(s0).0 == pref + scan_digits(self.rest()).0,
                scan_digits(s0).1 == scan_digits(self.rest()).1,
                val == dec_value(pref),
                val <= i64::MAX as u64,
                s0 == seq![first] + old(self).rest(),
                s0.len() < 2 || s0[0] != 48 || (s0[1] != 120 && s0[1] != 88),
            decreases self.rest().len(),
        {
            let ghost pre = self.rest();
            let c = self.read_character();
            if digit_byte(c) {
                let d = (c - 48) as u64;
                proof {
                    lemma_cons_first(pre);
                    assert(pref.push(c).drop_last() =~= pref);
                    assert(pref + (seq![c] + scan_digits(self.rest()).0) =~= pref.push(c)
                        + scan_digits(self.rest()).0);
                }
                if val > 922337203685477580u64 || (val == 922337203685477580u64 && d >= 8) {
                    proof {
                        lemma_scan_digits_digits(self.rest());
                        lemma_dec_value_concat_ge(pref.push(c), scan_digits(self.rest()).0);
                    }
                    return Err(LuaError::IntegerOverflow);
                }
                val = val * 10 + d;
                proof {
                    pref = pref.push(c);
                }
            } else if c == 46 {
                proof {
                    assert(pref + Seq::<u8>::empty() =~= pref);
                    lemma_dec_value_nonneg(pref);
                    lemma_cons_first(pre);
                }
                // The character just read came from the buffer-free cursor, so
                // what is left is bounded by the input itself.
                let input_len = self.input.len();
                proof {
                    assert(self.rest().len() <= input_len);
                }
                let res = self.read_number_fraction(val as i64);
                return res;
            } else if c == 101 || c == 69 {
                proof {
                    assert(pref + Seq::<u8>::empty() =~= pref);
                    lemma_dec_value_nonneg(pref);
                }
                return Err(LuaError::ScientificNotationUnsupported);
            } else {
                proof {
                    assert(pref + Seq::<u8>::empty() =~= pref);
                    lemma_dec_value_nonneg(pref);
                    if pre.len() > 0 {
                        lemma_cons_first(pre);
                    }
                }
                if alpha_byte(c) {
                    return Err(LuaError::MalformedNumber);
                }
                self.putback_char();
                return Ok(Token::Integer(val as i64));
            }
        }
    }

    /// The fractional part of a float literal, right after the point: a digit
    /// run, normalized and joined with the whole part read so far.
    fn read_number_fraction(&mut self, i: i64) -> (r: Result<Token, LuaError>)
        requires
            old(self).rest().len() <= usize::MAX,
        ensures
            match r {
                Ok(t) => scan_fraction(i as int, old(self).rest()) == Ok::<
                    (TokenView, Seq<u8>),
                    ErrorView,
                >((t@, final(self).rest())),
                Err(e) => scan_fraction(i as int, old(self).rest()) == Err::<
                    (TokenView, Seq<u8>),
                    ErrorView,
                >(e@),
            },
    {
        let mut n: u64 = 0;
        let mut k: usize = 0;
        let ghost mut pref: Seq<u8> = Seq::empty();
        proof {
            assert(Seq::<u8>::empty() + scan_digits(old(self).rest()).0 =~= scan_digits(
                old(self).rest(),
            ).0);
        }
        loop
            invariant
                pref.len() == k,
                forall|i2: int| 0 <= i2 < pref.len() ==> is_digit(#[trigger] pref[i2]),
                scan_digits(old(self).rest()).0 == pref + scan_digits(self.rest()).0,
                scan_digits(old(self).rest()).1 == scan_digits(self.rest()).1,
                n == dec_value(pref),
                n <= i64::MAX as u64,
                pref.len() + self.rest().len() == old(self).rest().len(),
                old(self).rest().len() <= usize::MAX,
            decreases self.rest().len(),
        {
            let ghost pre = self.rest();
            let c = self.read_character();
            if digit_byte(c) {
                let d = (c - 48) as u64;
                proof {
                    lemma_cons_first(pre);
                    assert(pref.push(c).drop_last() =~= pref);
                    assert(pref + (seq![c] + scan_digits(self.rest()).0) =~= pref.push(c)
                        + scan_digits(self.rest()).0);
                }
                if n > 922337203685477580u64 || (n == 922337203685477580u64 && d >= 8) {
                    proof {
                        lemma_scan_digits_digits(self.rest());
                        lemma_dec_value_concat_ge(pref.push(c), scan_digits(self.rest()).0);
                    }
                    return Err(LuaError::IntegerOverflow);
                }
                n = n * 10 + d;
                k = k + 1;
                proof {
                    pref = pref.push(c);
                }
            } else if c == 101 || c == 69 {
                proof {
                    assert(pref + Seq::<u8>::empty() =~= pref);
                    lemma_dec_value_nonneg(pref);
                }
                return Err(LuaError::ScientificNotationUnsupported);
            } else {
                proof {
                    assert(pref + Seq::<u8>::empty() =~= pref);
                    lemma_dec_value_nonneg(pref);
                    if pre.len() > 0 {
                        lemma_cons_first(pre);
                    }
                }
                if alpha_byte(c) || c == 46 {
                    return Err(LuaError::MalformedNumber);
                }
                self.putback_char();
                let mut fr: u64 = n;
                let mut fl: usize = k;
                while fl > 0 && fr % 10 == 0
                    invariant
                        norm_frac(n as int, k as int) == norm_frac(fr as int, fl as int),
                        fr <= n,
                    decreases fl,
                {
                    fr = fr / 10;
                    fl = fl - 1;
                }
                return Ok(Token::Float(FloatLit { whole: i, frac: fr as i64, frac_len: fl }));
            }
        }
    }

    /// Returns the next token, consuming exactly the bytes that constitute it,
    /// or the end-of-input marker when the input is exhausted. Whitespace and
    /// line comments are skipped; any other byte that starts no lexeme, an
    /// unterminated string, a malformed or oversized number, and the
    /// unimplemented literal forms are errors.
    pub fn next(&mut self) -> (r: Result<Token, LuaError>)
        ensures
            match r {
                Ok(t) => spec_next(old(self).rest()) == Ok::<(TokenView, Seq<u8>), ErrorView>(
                    (t@, final(self).rest()),
                ),
                Err(e) => spec_next(old(self).rest()) == Err::<(TokenView, Seq<u8>), ErrorView>(e@),
            },
        decreases old(self).rest().len(),
    {
        proof {
            reveal(spec_next);
        }
        let ghost s0 = self.rest();
        let c = self.read_character();
        if c == 0 {
            return Ok(Token::EoF);
        }
        proof {
            lemma_cons_first(s0);
        }
        match c {
            43 => Ok(Token::Add),
            42 => Ok(Token::Mul),
            37 => Ok(Token::Mod),
            94 => Ok(Token::Pow),
            35 => Ok(Token::Len),
            38 => Ok(Token::BitAnd),
            124 => Ok(Token::BitOr),
            40 => Ok(Token::ParL),
            41 => Ok(Token::ParR),
            123 => Ok(Token::CurlyL),
            125 => Ok(Token::CurlyR),
            91 => Ok(Token::SqurL),
            93 => Ok(Token::SqurR),
            59 => Ok(Token::SemiColon),
            44 => Ok(Token::Comma),
            45 => {
                let ghost r1 = self.rest();
                let c2 = self.read_character();
                if c2 == 45 {
                    proof {
                        lemma_cons_first(r1);
                    }
                    match self.read_comment() {
                        Ok(_) => {
                            proof {
                                lemma_skip_line_len(r1.skip(1));
                            }
                            self.next()
                        },
                        Err(e) => Err(e),
                    }
                } else {
                    self.putback_char();
                    proof {
                        if r1.len() > 0 {
                            lemma_cons_first(r1);
                        }
                    }
                    Ok(Token::Sub)
                }
            },
            47 => {
                let ghost r1 = self.rest();
                let c2 = self.read_character();
                if c2 == 47 {
                    Ok(Token::Idiv)
                } else {
                    self.putback_char();
                    proof {
                        if r1.len() > 0 {
                            lemma_cons_first(r1);
                        }
                    }
                    Ok(Token::Div)
                }
            },
            60 => {
                let ghost r1 = self.rest();
                let c2 = self.read_character();
                if c2 == 60 {
                    Ok(Token::ShiftL)
                } else if c2 == 61 {
                    Ok(Token::LesEq)
                } else {
                    self.putback_char();
                    proof {
                        if r1.len() > 0 {
                            lemma_cons_first(r1);
                        }
                    }
                    Ok(Token::Less)
                }
            },
            62 => {
                let ghost r1 = self.rest();
                let c2 = self.read_character();
                if c2 == 62 {
                    Ok(Token::ShiftR)
                } else if c2 == 61 {
                    Ok(Token::GreEq)
                } else {
                    self.putback_char();
                    proof {
                        if r1.len() > 0 {
                            lemma_cons_first(r1);
                        }
                    }
                    Ok(Token::Greater)
                }
            },
            61 => {
                let ghost r1 = self.rest();
                let c2 = self.read_character();
                if c2 == 61 {
                    Ok(Token::Equal)
                } else {
                    self.putback_char();
                    proof {
                        if r1.len() > 0 {
                            lemma_cons_first(r1);
                        }
                    }
                    Ok(Token::Assign)
                }
            },
            126 => {
                let ghost r1 = self.rest();
                let c2 = self.read_character();
                if c2 == 61 {
                    Ok(Token::NotEq)
                } else {
                    self.putback_char();
                    proof {
                        if r1.len() > 0 {
                            lemma_cons_first(r1);
                        }
                    }
                    Ok(Token::BitXor)
                }
            },
            58 => {
                let ghost r1 = self.rest();
                let c2 = self.read_character();
                if c2 == 58 {
                    Ok(Token::DoubColon)
                } else {
                    self.putback_char();
                    proof {
                        if r1.len() > 0 {
                            lemma_cons_first(r1);
                        }
                    }
                    Ok(Token::Colon)
                }
            },
            46 => {
                let ghost r1 = self.rest();
                let c2 = self.read_character();
                if c2 == 46 {
                    let ghost r2 = self.rest();
                    let c3 = self.read_character();
                    if c3 == 46 {
                        proof {
                            assert(r1.skip(1).skip(1) =~= r1.skip(2));
                        }
                        Ok(Token::Dots)
                    } else {
                        self.putback_char();
                        proof {
                            if r2.len() > 0 {
                                lemma_cons_first(r2);
                            }
                        }
                        Ok(Token::Concat)
                    }
                } else {
                    self.putback_char();
                    proof {
                        if r1.len() > 0 {
                            lemma_cons_first(r1);
                        }
                    }
                    Ok(Token::Dot)
                }
            },
            34 | 39 => self.read_literal_strings(c),
            65..=90 | 97..=122 | 95 => Ok(self.read_var_names(c)),
            48..=57 => self.read_numbers(c),
            32 | 10 | 13 | 9 => self.next(),
            _ => Err(LuaError::UnexpectedCharacter(c)),
        }
    }
}

/// True exactly for identifier bytes: letters, digits, underscore.
fn ident_byte(c: u8) -> (r: bool)
    ensures
        r == is_ident_byte(c),
{
    (c >= 97 && c <= 122) || (c >= 65 && c <= 90) || c == 95 || (c >= 48 && c <= 57)
}

/// True exactly for ASCII decimal digits.
fn digit_byte(c: u8) -> (r: bool)
    ensures
        r == is_digit(c),
{
    c >= 48 && c <= 57
}

/// True exactly for ASCII letters.
fn alpha_byte(c: u8) -> (r: bool)
    ensures
        r == is_alpha(c),
{
    (c >= 65 && c <= 90) || (c >= 97 && c <= 122)
}

/// Every byte of the digit prefix that `scan_digits` yields is a digit.
pub proof fn lemma_scan_digits_digits(s: Seq<u8>)
    ensures
        forall|i: int| 0 <= i < scan_digits(s).0.len() ==> is_digit(#[trigger] scan_digits(s).0[i]),
    decreases s.len(),
{
    if s.len() > 0 && is_digit(s[0]) {
        lemma_scan_digits_digits(s.skip(1));
        assert forall|i: int| 0 <= i < scan_digits(s).0.len() implies is_digit(
            scan_digits(s).0[i],
        ) by {
            if i == 0 {
                assert(scan_digits(s).0[0] == s[0]);
            } else {
                assert(scan_digits(s).0[i] == scan_digits(s.skip(1)).0[i - 1]);
            }
        }
    }
}

/// A run of digits has a value of at least zero.
pub proof fn lemma_dec_value_nonneg(d: Seq<u8>)
    requires
        forall|i: int| 0 <= i < d.len() ==> is_digit(#[trigger] d[i]),
    ensures
        dec_value(d) >= 0,
    decreases d.len(),
{
    if d.len() > 0 {
        lemma_dec_value_nonneg(d.drop_last());
    }
}

/// Appending digits never shrinks the value of a digit run.
pub proof fn lemma_dec_value_concat_ge(a: Seq<u8>, b: Seq<u8>)
    requires
        forall|i: int| 0 <= i < a.len() ==> is_digit(#[trigger] a[i]),
        forall|i: int| 0 <= i < b.len() ==> is_digit(#[trigger] b[i]),
    ensures
        dec_value(a + b) >= dec_value(a),
    decreases b.len(),
{
    if b.len() == 0 {
        assert(a + b =~= a);
    } else {
        assert(forall|i: int|
            0 <= i < b.drop_last().len() ==> is_digit(#[trigger] b.drop_last()[i]));
        lemma_dec_value_concat_ge(a, b.drop_last());
        assert((a + b).drop_last() =~= a + b.drop_last());
        assert(forall|i: int|
            0 <= i < (a + b.drop_last()).len() ==> is_digit(#[trigger] (a + b.drop_last())[i]));
        lemma_dec_value_nonneg(a + b.drop_last());
    }
}

/// True exactly when `v` holds the two given bytes.
fn eq2(v: &Vec<u8>, a: u8, b: u8) -> (r: bool)
    ensures
        r == (v@ == seq![a, b]),
{
    if v.len() == 2 && v[0] == a && v[1] == b {
        proof {
            assert(v@ =~= seq![a, b]);
        }
        true
    } else {
        false
    }
}

/// True exactly when `v` holds the three given bytes.
fn eq3(v: &Vec<u8>, a: u8, b: u8, c: u8) -> (r: bool)
    ensures
        r == (v@ == seq![a, b, c]),
{
    if v.len() == 3 && v[0] == a && v[1] == b && v[2] == c {
        proof {
            assert(v@ =~= seq![a, b, c]);
        }
        true
    } else {
        false
    }
}

/// True exactly when `v` holds the four given bytes.
fn eq4(v: &Vec<u8>, a: u8, b: u8, c: u8, d: u8) -> (r: bool)
    ensures
        r == (v@ == seq![a, b, c, d]),
{
    if v.len() == 4 && v[0] == a && v[1] == b && v[2] == c && v[3] == d {
        proof {
            assert(v@ =~= seq![a, b, c, d]);
        }
        true
    } else {
        false
    }
}

/// True exactly when `v` holds the five given bytes.
fn eq5(v: &Vec<u8>, a: u8, b: u8, c: u8, d: u8, e: u8) -> (r: bool)
    ensures
        r == (v@ == seq![a, b, c, d, e]),
{
    if v.len() == 5 && v[0] == a && v[1] == b && v[2] == c && v[3] == d && v[4] == e {
        proof {
            assert(v@ =~= seq![a, b, c, d, e]);
        }
        true
    } else {
        false
    }
}

/// True exactly when `v` holds the six given bytes.
fn eq6(v: &Vec<u8>, a: u8, b: u8, c: u8, d: u8, e: u8, f: u8) -> (r: bool)
    ensures
        r == (v@ == seq![a, b, c, d, e, f]),
{
    if v.len() == 6 && v[0] == a && v[1] == b && v[2] == c && v[3] == d && v[4] == e && v[5] == f {
        proof {
            assert(v@ =~= seq![a, b, c, d, e, f]);
        }
        true
    } else {
        false
    }
}

/// True exactly when `v` holds the eight given bytes.
fn eq8(v: &Vec<u8>, a: u8, b: u8, c: u8, d: u8, e: u8, f: u8, g: u8, h: u8) -> (r: bool)
    ensures
        r == (v@ == seq![a, b, c, d, e, f, g, h]),
{
    if v.len() == 8 && v[0] == a && v[1] == b && v[2] == c && v[3] == d && v[4] == e && v[5] == f
        && v[6] == g && v[7] == h {
        proof {
            assert(v@ =~= seq![a, b, c, d, e, f, g, h]);
        }
        true
    } else {
        false
    }
}

/// A scanned string leaves strictly fewer bytes than it was given.
pub proof fn lemma_scan_str_rest(s: Seq<u8>, q: u8)
    ensures
        scan_str_body(s, q) matches Ok(p) ==> p.1.len() < s.len(),
    decreases s.len(),
{
    if s.len() > 0 && s[0] != 0 && s[0] != q {
        lemma_scan_str_rest(s.skip(1), q);
    }
}

/// A scanned identifier leaves no more bytes than it was given.
pub proof fn lemma_scan_ident_rest(s: Seq<u8>)
    ensures
        scan_ident(s).1.len() <= s.len(),
    decreases s.len(),
{
    if s.len() > 0 && is_ident_byte(s[0]) {
        lemma_scan_ident_rest(s.skip(1));
    }
}

/// A scanned digit run leaves no more bytes than it was given, and strictly
/// fewer when it starts with a digit.
pub proof fn lemma_scan_digits_rest(s: Seq<u8>)
    ensures
        scan_digits(s).1.len() <= s.len(),
        s.len() > 0 && is_digit(s[0]) ==> scan_digits(s).1.len() < s.len(),
    decreases s.len(),
{
    if s.len() > 0 && is_digit(s[0]) {
        lemma_scan_digits_rest(s.skip(1));
    }
}

/// Pulling a token never grows the stream, and consumes at least one byte
/// unless it is the end-of-input marker.
pub proof fn lemma_next_shrinks(s: Seq<u8>)
    ensures
        spec_next(s) matches Ok(p) ==> p.1.len() <= s.len() && (p.0 != TokenView::EoF ==> p.1.len()
            < s.len()),
    decreases s.len(),
{
    reveal(spec_next);
    if s.len() > 0 {
        let c = s[0];
        let r = s.skip(1);
        if c == 0 {
        } else if is_space(c) {
            lemma_next_shrinks(r);
        } else if c == 45 && r.len() > 0 && r[0] == 45 {
            let body = r.skip(1);
            if !(body.len() > 0 && body[0] == 91) {
                lemma_skip_line_len(body);
                lemma_next_shrinks(skip_line(body));
            }
        } else if c == 34 || c == 39 {
            lemma_scan_str_rest(r, c);
        } else if is_ident_start(c) {
            lemma_scan_ident_rest(r);
        } else if is_digit(c) {
            lemma_scan_digits_rest(s);
            let (digits, rest) = scan_digits(s);
            if rest.len() > 0 && rest[0] == 46 {
                lemma_scan_digits_rest(rest.skip(1));
            }
        }
    }
}

/// Tokenizing an empty input yields exactly the end-of-input token, and
/// consumes nothing.
pub proof fn lemma_empty_input_eof()
    ensures
        spec_next(Seq::<u8>::empty()) == Ok::<(TokenView, Seq<u8>), ErrorView>(
            (TokenView::EoF, Seq::<u8>::empty()),
        ),
{
    reveal(spec_next);
}

/// A line comment body ending at a line feed is skipped whole: what follows
/// the line feed is tokenized as if the comment bytes were not there.
proof fn lemma_skip_line_through(body: Seq<u8>, rest: Seq<u8>)
    requires
        forall|i: int| 0 <= i < body.len() ==> body[i] != 10 && body[i] != 0,
    ensures
        skip_line(body + seq![10u8] + rest) == rest,
    decreases body.len(),
{
    let s = body + seq![10u8] + rest;
    if body.len() == 0 {
        assert(s[0] == 10);
        assert(s.skip(1) =~= rest);
    } else {
        assert(s[0] == body[0]);
        lemma_skip_line_through(body.skip(1), rest);
        assert(s.skip(1) =~= body.skip(1) + seq![10u8] + rest);
    }
}

/// A line comment is not observable: `--`, any comment text (that holds no
/// line feed, no zero byte, and does not begin a long comment), and the
/// closing line feed tokenize exactly as the input with the comment removed.
pub proof fn lemma_line_comment_transparent(body: Seq<u8>, rest: Seq<u8>)
    requires
        forall|i: int| 0 <= i < body.len() ==> body[i] != 10 && body[i] != 0,
        body.len() > 0 ==> body[0] != 91,
    ensures
        spec_next(seq![45u8, 45u8] + body + seq![10u8] + rest) == spec_next(rest),
{
    reveal(spec_next);
    let s = seq![45u8, 45u8] + body + seq![10u8] + rest;
    assert(s[0] == 45);
    assert(s.skip(1)[0] == 45);
    assert(s.skip(1).skip(1) =~= body + seq![10u8] + rest);
    let body2 = s.skip(1).skip(1);
    if body.len() == 0 {
        assert(body2[0] == 10);
    } else {
        assert(body2[0] == body[0]);
    }
    lemma_skip_line_through(body, rest);
    assert(spec_next(s) == spec_next(skip_line(body2)));
}

/// Resolves an accumulated identifier against the fixed keyword set,
/// case-sensitively, falling back to a name token.
fn keyword_token(name: Vec<u8>) -> (t: Token)
    ensures
        t@ == keyword_of(name@),
{
    if eq3(&name, 97, 110, 100) {
        return Token::And;
    }
    if eq5(&name, 98, 114, 101, 97, 107) {
        return Token::Break;
    }
    if eq2(&name, 100, 111) {
        return Token::Do;
    }
    if eq4(&name, 101, 108, 115, 101) {
        return Token::Else;
    }
    if eq6(&name, 101, 108, 115, 101, 105, 102) {
        return Token::Elseif;
    }
    if eq3(&name, 101, 110, 100) {
        return Token::End;
    }
    if eq5(&name, 102, 97, 108, 115, 101) {
        return Token::False;
    }
    if eq3(&name, 102, 111, 114) {
        return Token::For;
    }
    if eq8(&name, 102, 117, 110, 99, 116, 105, 111, 110) {
        return Token::Function;
    }
    if eq4(&name, 103, 111, 116, 111) {
        return Token::Goto;
    }
    if eq2(&name, 105, 102) {
        return Token::If;
    }
    if eq2(&name, 105, 110) {
        return Token::In;
    }
    if eq5(&name, 108, 111, 99, 97, 108) {
        return Token::Local;
    }
    if eq3(&name, 110, 105, 108) {
        return Token::Nil;
    }
    if eq3(&name, 110, 111, 116) {
        return Token::Not;
    }
    if eq2(&name, 111, 114) {
        return Token::Or;
    }
    if eq6(&name, 114, 101, 112, 101, 97, 116) {
        return Token::Repeat;
    }
    if eq6(&name, 114, 101, 116, 117, 114, 110) {
        return Token::Return;
    }
    if eq4(&name, 116, 104, 101, 110) {
        return Token::Then;
    }
    if eq4(&name, 116, 114, 117, 101) {
        return Token::True;
    }
    if eq5(&name, 117, 110, 116, 105, 108) {
        return Token::Until;
    }
    if eq5(&name, 119, 104, 105, 108, 101) {
        return Token::While;
    }
    Token::VarName(name)
}

} // verus!
