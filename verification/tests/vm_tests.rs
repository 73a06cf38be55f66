use lua_interpreter::enums::ByteCode;
use lua_interpreter::enums::FloatLit;
use lua_interpreter::enums::HostFn;
use lua_interpreter::enums::LuaError;
use lua_interpreter::enums::Value;
use lua_interpreter::parser::load;
use lua_interpreter::parser::ParsedProto;
use lua_interpreter::vm::ExeState;

fn run(src: &[u8]) -> ExeState {
    let proto = load(src.to_vec()).expect("compilation should succeed");
    let mut state = ExeState::new();
    state.execute(&proto).expect("execution should succeed");
    state
}

#[test]
fn round_trip_scenario_one_output() {
    let state = run(b"print(\"hello\")");
    assert_eq!(state.output(), &vec![b"hello".to_vec()]);
}

#[test]
fn round_trip_scenario_two_prints_42() {
    let state = run(b"print(42)");
    assert_eq!(state.output(), &vec![b"42".to_vec()]);
}

#[test]
fn round_trip_scenario_three_nil_and_booleans() {
    let state = run(b"print(nil)");
    assert_eq!(state.output(), &vec![b"nil".to_vec()]);
    let state = run(b"print(true)");
    assert_eq!(state.output(), &vec![b"true".to_vec()]);
    let state = run(b"print(false)");
    assert_eq!(state.output(), &vec![b"false".to_vec()]);
}

#[test]
fn large_integer_prints_losslessly() {
    let state = run(b"print(123456789012)");
    assert_eq!(state.output(), &vec![b"123456789012".to_vec()]);
}

#[test]
fn float_literals_print_their_decimal() {
    let state = run(b"print(3.14)");
    assert_eq!(state.output(), &vec![b"3.14".to_vec()]);
    let state = run(b"print(1.)");
    assert_eq!(state.output(), &vec![b"1.0".to_vec()]);
    let state = run(b"print(2.50)");
    assert_eq!(state.output(), &vec![b"2.5".to_vec()]);
    let state = run(b"print(0.05)");
    assert_eq!(state.output(), &vec![b"0.05".to_vec()]);
}

#[test]
fn several_statements_print_in_order() {
    let state = run(b"print(1)\nprint(\"two\")\nprint(nil)");
    assert_eq!(
        state.output(),
        &vec![b"1".to_vec(), b"two".to_vec(), b"nil".to_vec()]
    );
}

#[test]
fn stack_writes_grow_without_gaps() {
    let mut state = ExeState::new();
    assert!(state.set_stack(0, Value::Integer(10)).is_ok());
    assert!(state.set_stack(1, Value::Integer(11)).is_ok());
    assert!(state.set_stack(2, Value::Integer(12)).is_ok());
    assert_eq!(
        state.stack(),
        &vec![Value::Integer(10), Value::Integer(11), Value::Integer(12)]
    );
    // Overwriting in place keeps the length.
    assert!(state.set_stack(1, Value::Boolean(true)).is_ok());
    assert_eq!(state.stack().len(), 3);
    assert_eq!(state.stack()[1], Value::Boolean(true));
}

#[test]
fn stack_write_past_next_free_slot_is_out_of_bounds() {
    let mut state = ExeState::new();
    assert!(state.set_stack(0, Value::Nil).is_ok());
    // One past the length would leave a gap: index 2 with length 1.
    assert!(matches!(
        state.set_stack(2, Value::Nil),
        Err(LuaError::StackIndexOutOfBounds)
    ));
    // The failed write changed nothing.
    assert_eq!(state.stack(), &vec![Value::Nil]);
}

#[test]
fn calling_a_non_function_value_fails() {
    // `foo` is unbound: the callee resolves to nil, which cannot be called.
    let proto = load(b"foo(1)".to_vec()).expect("compiles fine");
    let mut state = ExeState::new();
    match state.execute(&proto) {
        Err(LuaError::NotAFunction(Value::Nil)) => {}
        r => panic!("expected a not-a-function error, got {:?}", r),
    }
}

#[test]
fn global_name_constant_must_be_a_string() {
    let proto = ParsedProto {
        constants: vec![Value::Integer(7)],
        byte_codes: vec![ByteCode::GetGlobal(0, 0)],
    };
    let mut state = ExeState::new();
    match state.execute(&proto) {
        Err(LuaError::InvalidGlobalKey(Value::Integer(7))) => {}
        r => panic!("expected an invalid-global-key error, got {:?}", r),
    }
}

#[test]
fn missing_constant_index_fails() {
    let proto = ParsedProto {
        constants: Vec::new(),
        byte_codes: vec![ByteCode::LoadConst(0, 3)],
    };
    let mut state = ExeState::new();
    assert!(matches!(
        state.execute(&proto),
        Err(LuaError::ConstantIndexOutOfBounds)
    ));
}

#[test]
fn output_written_before_an_error_is_kept() {
    let proto = load(b"print(1)\nfoo(2)".to_vec()).expect("compiles fine");
    let mut state = ExeState::new();
    assert!(state.execute(&proto).is_err());
    assert_eq!(state.output(), &vec![b"1".to_vec()]);
}

#[test]
fn call_with_callee_slot_beyond_stack_fails() {
    let proto = ParsedProto {
        constants: Vec::new(),
        byte_codes: vec![ByteCode::Call(3, 1)],
    };
    let mut state = ExeState::new();
    assert!(matches!(
        state.execute(&proto),
        Err(LuaError::StackIndexOutOfBounds)
    ));
}

#[test]
fn value_rendering() {
    assert_eq!(Value::Nil.render(), b"nil".to_vec());
    assert_eq!(Value::Boolean(true).render(), b"true".to_vec());
    assert_eq!(Value::Boolean(false).render(), b"false".to_vec());
    assert_eq!(Value::Integer(0).render(), b"0".to_vec());
    assert_eq!(Value::Integer(-5).render(), b"-5".to_vec());
    assert_eq!(Value::Integer(i64::MIN).render(), b"-9223372036854775808".to_vec());
    assert_eq!(Value::String(b"raw text".to_vec()).render(), b"raw text".to_vec());
    assert_eq!(Value::Function(HostFn::Print).render(), b"function".to_vec());
    let f = FloatLit { whole: 12, frac: 5, frac_len: 3 };
    assert_eq!(Value::Float(f).render(), b"12.005".to_vec());
}

#[test]
fn value_equality_is_kind_preserving() {
    assert_eq!(Value::Integer(1), Value::Integer(1));
    assert_ne!(
        Value::Integer(1),
        Value::Float(FloatLit { whole: 1, frac: 0, frac_len: 0 })
    );
    assert_eq!(
        Value::String(b"a".to_vec()),
        Value::String(b"a".to_vec())
    );
    assert_ne!(Value::String(b"a".to_vec()), Value::String(b"b".to_vec()));
    assert_eq!(
        Value::Function(HostFn::Print),
        Value::Function(HostFn::Print)
    );
    assert_ne!(Value::Nil, Value::Boolean(false));
}
