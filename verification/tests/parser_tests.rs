use lua_interpreter::enums::ByteCode;
use lua_interpreter::enums::LuaError;
use lua_interpreter::enums::Value;
use lua_interpreter::lexer::Token;
use lua_interpreter::parser::load;
use lua_interpreter::parser::ParsedProto;

fn compile(src: &[u8]) -> ParsedProto {
    load(src.to_vec()).expect("compilation should succeed")
}

#[test]
fn round_trip_scenario_one_bytecode() {
    let proto = compile(b"print(\"hello\")");
    assert_eq!(
        proto.constants,
        vec![
            Value::String(b"print".to_vec()),
            Value::String(b"hello".to_vec()),
        ]
    );
    assert_eq!(
        proto.byte_codes,
        vec![
            ByteCode::LoadConst(0, 0),
            ByteCode::GetGlobal(0, 0),
            ByteCode::LoadConst(1, 1),
            ByteCode::Call(0, 1),
        ]
    );
}

#[test]
fn small_integer_compiles_to_immediate() {
    // 42 fits the 16-bit immediate range: no constant-pool entry for it.
    let proto = compile(b"print(42)");
    assert_eq!(proto.constants, vec![Value::String(b"print".to_vec())]);
    assert_eq!(
        proto.byte_codes,
        vec![
            ByteCode::LoadConst(0, 0),
            ByteCode::GetGlobal(0, 0),
            ByteCode::LoadInteger(1, 42),
            ByteCode::Call(0, 1),
        ]
    );
}

#[test]
fn large_integer_routes_through_constant_pool() {
    let proto = compile(b"print(123456789012)");
    assert_eq!(
        proto.constants,
        vec![
            Value::String(b"print".to_vec()),
            Value::Integer(123456789012),
        ]
    );
    assert_eq!(
        proto.byte_codes,
        vec![
            ByteCode::LoadConst(0, 0),
            ByteCode::GetGlobal(0, 0),
            ByteCode::LoadConst(1, 1),
            ByteCode::Call(0, 1),
        ]
    );
}

#[test]
fn constant_pool_deduplicates_equal_literals() {
    // The same literal string referenced twice makes one pool entry,
    // referenced from both statements.
    let proto = compile(b"print(\"x\")\nprint(\"x\")");
    assert_eq!(
        proto.constants,
        vec![Value::String(b"print".to_vec()), Value::String(b"x".to_vec())]
    );
    assert_eq!(
        proto.byte_codes,
        vec![
            ByteCode::LoadConst(0, 0),
            ByteCode::GetGlobal(0, 0),
            ByteCode::LoadConst(1, 1),
            ByteCode::Call(0, 1),
            ByteCode::LoadConst(0, 0),
            ByteCode::GetGlobal(0, 0),
            ByteCode::LoadConst(1, 1),
            ByteCode::Call(0, 1),
        ]
    );
    // The same holds for identical integer and float literals.
    let proto = compile(b"print(99999)\nprint(99999)\nprint(1.5)\nprint(1.50)");
    assert_eq!(proto.constants.len(), 3);
}

#[test]
fn nil_true_false_compile_to_direct_loads() {
    let proto = compile(b"print(nil)\nprint(true)\nprint(false)");
    assert_eq!(proto.constants, vec![Value::String(b"print".to_vec())]);
    assert_eq!(proto.byte_codes[2], ByteCode::LoadNil(1));
    assert_eq!(proto.byte_codes[6], ByteCode::LoadBool(1, true));
    assert_eq!(proto.byte_codes[10], ByteCode::LoadBool(1, false));
}

#[test]
fn bare_string_call_sugar() {
    let proto = compile(b"print \"hi\"");
    assert_eq!(
        proto.byte_codes,
        vec![
            ByteCode::LoadConst(0, 0),
            ByteCode::GetGlobal(0, 0),
            ByteCode::LoadConst(1, 1),
            ByteCode::Call(0, 1),
        ]
    );
}

#[test]
fn two_bare_identifiers_fail_naming_the_second() {
    // `foo bar` is no call: the error names the unexpected second identifier.
    match load(b"foo bar".to_vec()) {
        Err(LuaError::ExpectedArgument(Token::VarName(v))) => assert_eq!(v, b"bar".to_vec()),
        r => panic!("expected a syntax error naming `bar`, got {:?}", r),
    }
}

#[test]
fn statement_must_start_with_a_name() {
    match load(b"42".to_vec()) {
        Err(LuaError::UnexpectedToken(Token::Integer(42))) => {}
        r => panic!("expected an unexpected-token error, got {:?}", r),
    }
}

#[test]
fn missing_close_paren_is_an_error() {
    match load(b"print(1 2".to_vec()) {
        Err(LuaError::ExpectedCloseParen(Token::Integer(2))) => {}
        r => panic!("expected a close-paren error, got {:?}", r),
    }
}

#[test]
fn non_literal_argument_is_an_error() {
    match load(b"print(foo)".to_vec()) {
        Err(LuaError::InvalidArgument(Token::VarName(v))) => assert_eq!(v, b"foo".to_vec()),
        r => panic!("expected an invalid-argument error, got {:?}", r),
    }
}

#[test]
fn lexical_error_propagates_through_load() {
    assert!(matches!(
        load(b"print(\"unterminated".to_vec()),
        Err(LuaError::UnterminatedString)
    ));
}

#[test]
fn a_257th_distinct_constant_overflows_the_pool() {
    // `print` plus 255 distinct strings fill all 8-bit indices; one more
    // distinct literal cannot be addressed.
    let mut src = Vec::new();
    for i in 0..255 {
        src.extend_from_slice(format!("print(\"s{}\")\n", i).as_bytes());
    }
    assert!(load(src.clone()).is_ok());
    src.extend_from_slice(b"print(\"one too many\")\n");
    assert!(matches!(load(src), Err(LuaError::TooManyConstants)));
}

#[test]
fn empty_source_compiles_to_empty_program() {
    let proto = compile(b"");
    assert!(proto.constants.is_empty());
    assert!(proto.byte_codes.is_empty());
}
