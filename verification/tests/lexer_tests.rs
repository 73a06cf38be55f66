use lua_interpreter::enums::LuaError;
use lua_interpreter::lexer::Lexer;
use lua_interpreter::lexer::Token;

fn lex_all(src: &[u8]) -> Vec<Token> {
    let mut lexer = Lexer::new(src.to_vec());
    let mut out = Vec::new();
    loop {
        match lexer.next() {
            Ok(Token::EoF) => {
                out.push(Token::EoF);
                return out;
            }
            Ok(t) => out.push(t),
            Err(e) => panic!("unexpected lexical error: {:?}", e),
        }
    }
}

fn lex_err(src: &[u8]) -> LuaError {
    let mut lexer = Lexer::new(src.to_vec());
    loop {
        match lexer.next() {
            Ok(Token::EoF) => panic!("expected a lexical error"),
            Ok(_) => {}
            Err(e) => return e,
        }
    }
}

#[test]
fn empty_input_yields_eof() {
    let mut lexer = Lexer::new(Vec::new());
    assert!(matches!(lexer.next(), Ok(Token::EoF)));
    assert!(matches!(lexer.next(), Ok(Token::EoF)));
}

/// The source holds one operator followed by a marker identifier: the marker
/// comes out as the second token only if the operator consumed exactly its
/// own bytes.
fn op_then_marker(src: &[u8]) -> Token {
    let toks = lex_all(src);
    assert_eq!(toks.len(), 3, "{:?}", src);
    assert!(matches!(&toks[1], Token::VarName(v) if v == b"x"), "{:?}", src);
    assert!(matches!(toks[2], Token::EoF));
    toks.into_iter().next().unwrap()
}

#[test]
fn single_char_operators_leave_stream_after_lexeme() {
    assert!(matches!(op_then_marker(b"+x"), Token::Add));
    assert!(matches!(op_then_marker(b"-x"), Token::Sub));
    assert!(matches!(op_then_marker(b"*x"), Token::Mul));
    assert!(matches!(op_then_marker(b"/x"), Token::Div));
    assert!(matches!(op_then_marker(b"%x"), Token::Mod));
    assert!(matches!(op_then_marker(b"^x"), Token::Pow));
    assert!(matches!(op_then_marker(b"#x"), Token::Len));
    assert!(matches!(op_then_marker(b"&x"), Token::BitAnd));
    assert!(matches!(op_then_marker(b"~x"), Token::BitXor));
    assert!(matches!(op_then_marker(b"|x"), Token::BitOr));
    assert!(matches!(op_then_marker(b"<x"), Token::Less));
    assert!(matches!(op_then_marker(b">x"), Token::Greater));
    assert!(matches!(op_then_marker(b"=x"), Token::Assign));
    assert!(matches!(op_then_marker(b"(x"), Token::ParL));
    assert!(matches!(op_then_marker(b")x"), Token::ParR));
    assert!(matches!(op_then_marker(b"{x"), Token::CurlyL));
    assert!(matches!(op_then_marker(b"}x"), Token::CurlyR));
    assert!(matches!(op_then_marker(b"[x"), Token::SqurL));
    assert!(matches!(op_then_marker(b"]x"), Token::SqurR));
    assert!(matches!(op_then_marker(b";x"), Token::SemiColon));
    assert!(matches!(op_then_marker(b":x"), Token::Colon));
    assert!(matches!(op_then_marker(b",x"), Token::Comma));
    assert!(matches!(op_then_marker(b".x"), Token::Dot));
}

#[test]
fn two_char_operators_leave_stream_after_lexeme() {
    assert!(matches!(op_then_marker(b"//x"), Token::Idiv));
    assert!(matches!(op_then_marker(b"<<x"), Token::ShiftL));
    assert!(matches!(op_then_marker(b">>x"), Token::ShiftR));
    assert!(matches!(op_then_marker(b"<=x"), Token::LesEq));
    assert!(matches!(op_then_marker(b">=x"), Token::GreEq));
    assert!(matches!(op_then_marker(b"==x"), Token::Equal));
    assert!(matches!(op_then_marker(b"~=x"), Token::NotEq));
    assert!(matches!(op_then_marker(b"::x"), Token::DoubColon));
    assert!(matches!(op_then_marker(b"..x"), Token::Concat));
    assert!(matches!(op_then_marker(b"...x"), Token::Dots));
}

#[test]
fn line_comment_tokenizes_as_if_removed() {
    let with_comment = lex_all(b"-- comment text\nfoo");
    let without = lex_all(b"foo");
    assert_eq!(with_comment.len(), without.len());
    assert!(matches!(&with_comment[0], Token::VarName(v) if v == b"foo"));
    assert!(matches!(&without[0], Token::VarName(v) if v == b"foo"));
    // A comment at the very end of input is skipped too.
    let only_comment = lex_all(b"-- nothing after");
    assert!(matches!(only_comment[0], Token::EoF));
}

#[test]
fn keywords_and_identifiers() {
    let toks = lex_all(b"and break do else elseif end false for function goto if in local nil not or repeat return then true until while foo _bar x1");
    assert!(matches!(toks[0], Token::And));
    assert!(matches!(toks[1], Token::Break));
    assert!(matches!(toks[2], Token::Do));
    assert!(matches!(toks[3], Token::Else));
    assert!(matches!(toks[4], Token::Elseif));
    assert!(matches!(toks[5], Token::End));
    assert!(matches!(toks[6], Token::False));
    assert!(matches!(toks[7], Token::For));
    assert!(matches!(toks[8], Token::Function));
    assert!(matches!(toks[9], Token::Goto));
    assert!(matches!(toks[10], Token::If));
    assert!(matches!(toks[11], Token::In));
    assert!(matches!(toks[12], Token::Local));
    assert!(matches!(toks[13], Token::Nil));
    assert!(matches!(toks[14], Token::Not));
    assert!(matches!(toks[15], Token::Or));
    assert!(matches!(toks[16], Token::Repeat));
    assert!(matches!(toks[17], Token::Return));
    assert!(matches!(toks[18], Token::Then));
    assert!(matches!(toks[19], Token::True));
    assert!(matches!(toks[20], Token::Until));
    assert!(matches!(toks[21], Token::While));
    assert!(matches!(&toks[22], Token::VarName(v) if v == b"foo"));
    assert!(matches!(&toks[23], Token::VarName(v) if v == b"_bar"));
    assert!(matches!(&toks[24], Token::VarName(v) if v == b"x1"));
}

#[test]
fn string_literals_both_quotes() {
    let toks = lex_all(b"\"hello\" 'world'");
    assert!(matches!(&toks[0], Token::String(s) if s == b"hello"));
    assert!(matches!(&toks[1], Token::String(s) if s == b"world"));
}

#[test]
fn integer_and_float_literals() {
    let toks = lex_all(b"42 0 3.14 1. 2.50");
    assert!(matches!(toks[0], Token::Integer(42)));
    assert!(matches!(toks[1], Token::Integer(0)));
    match &toks[2] {
        Token::Float(f) => {
            assert_eq!(f.whole, 3);
            assert_eq!(f.frac, 14);
            assert_eq!(f.frac_len, 2);
        }
        t => panic!("expected a float, got {:?}", t),
    }
    match &toks[3] {
        Token::Float(f) => {
            assert_eq!(f.whole, 1);
            assert_eq!(f.frac, 0);
            assert_eq!(f.frac_len, 0);
        }
        t => panic!("expected a float, got {:?}", t),
    }
    // Trailing zero digits of the fraction are normalized away.
    match &toks[4] {
        Token::Float(f) => {
            assert_eq!(f.whole, 2);
            assert_eq!(f.frac, 5);
            assert_eq!(f.frac_len, 1);
        }
        t => panic!("expected a float, got {:?}", t),
    }
}

#[test]
fn unexpected_character_is_an_error() {
    assert!(matches!(lex_err(b"?"), LuaError::UnexpectedCharacter(63)));
}

#[test]
fn unterminated_string_is_an_error() {
    assert!(matches!(lex_err(b"\"abc"), LuaError::UnterminatedString));
}

#[test]
fn malformed_number_is_an_error() {
    assert!(matches!(lex_err(b"1a"), LuaError::MalformedNumber));
    assert!(matches!(lex_err(b"1.5.2"), LuaError::MalformedNumber));
}

#[test]
fn unimplemented_literal_forms_are_errors() {
    assert!(matches!(lex_err(b"0x1f"), LuaError::HexNumbersUnsupported));
    assert!(matches!(lex_err(b"1e5"), LuaError::ScientificNotationUnsupported));
    assert!(matches!(lex_err(b"--[ long comment"), LuaError::LongCommentsUnsupported));
}

#[test]
fn oversized_integer_literal_is_an_error() {
    assert!(matches!(lex_err(b"99999999999999999999"), LuaError::IntegerOverflow));
    // The largest 64-bit value still fits.
    let toks = lex_all(b"9223372036854775807");
    assert!(matches!(toks[0], Token::Integer(9223372036854775807)));
}
