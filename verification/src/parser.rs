//! The single-pass compiler: drives the tokenizer statement by statement and
//! emits instructions plus a deduplicated constant pool; no syntax tree is
//! built. `spec_load` is the mathematical definition of compilation; `load` is
//! proved to follow it.

use crate::enums::ByteCode;
use crate::enums::ErrorView;
use crate::enums::LuaError;
use crate::enums::Value;
use crate::enums::ValueView;
use crate::lexer::lemma_next_shrinks;
use crate::lexer::spec_next;
use crate::lexer::Lexer;
use crate::lexer::Token;
use crate::lexer::TokenView;
use vstd::prelude::*;

verus! {

/// The compiled program: an immutable pair of constant pool and instruction
/// sequence, produced once and then only read.
#[derive(Debug)]
pub struct ParsedProto {
    pub constants: Vec<Value>,
    pub byte_codes: Vec<ByteCode>,
}

/// The models of the values in a pool.
pub open spec fn values_view(s: Seq<Value>) -> Seq<ValueView> {
    s.map_values(|v: Value| v@)
}

/// The first index of `v` in `pool`, or `pool.len()` when absent.
pub open spec fn find_const(pool: Seq<ValueView>, v: ValueView) -> int
    decreases pool.len(),
{
    if pool.len() == 0 {
        0
    } else if pool[0] == v {
        0
    } else {
        1 + find_const(pool.skip(1), v)
    }
}

/// Deduplicating insertion: a value already present keeps its index and the
/// pool; a new value is appended at the old length. Indices are stable once
/// assigned and the same constant never occupies two slots.
pub open spec fn add_const(pool: Seq<ValueView>, v: ValueView) -> (Seq<ValueView>, int) {
    let i = find_const(pool, v);
    if i < pool.len() {
        (pool, i)
    } else {
        (pool.push(v), i)
    }
}

/// `find_const` yields the first occurrence: everything before it differs,
/// and it stays within the pool plus one.
pub proof fn lemma_find_const(pool: Seq<ValueView>, v: ValueView)
    ensures
        0 <= find_const(pool, v) <= pool.len(),
        find_const(pool, v) < pool.len() ==> pool[find_const(pool, v)] == v,
        forall|j: int| 0 <= j < find_const(pool, v) ==> pool[j] != v,
    decreases pool.len(),
{
    if pool.len() > 0 && pool[0] != v {
        lemma_find_const(pool.skip(1), v);
        assert forall|j: int| 0 <= j < find_const(pool, v) implies pool[j] != v by {
            if j > 0 {
                assert(pool[j] == pool.skip(1)[j - 1]);
            }
        }
    }
}

/// A first-occurrence characterization pins `find_const` down: if everything
/// before `i` differs from `v` and `i` either hits `v` or is the length, then
/// `find_const` is exactly `i`.
pub proof fn lemma_find_const_is(pool: Seq<ValueView>, v: ValueView, i: int)
    requires
        0 <= i <= pool.len(),
        i < pool.len() ==> pool[i] == v,
        i == pool.len() ==> forall|j: int| 0 <= j < pool.len() ==> pool[j] != v,
        forall|j: int| 0 <= j < i ==> pool[j] != v,
    ensures
        find_const(pool, v) == i,
    decreases pool.len(),
{
    if pool.len() == 0 {
    } else if pool[0] == v {
    } else {
        lemma_find_const_is(pool.skip(1), v, i - 1);
    }
}

/// Deduplicating insertion of a constant: the index of an existing equal
/// value, or the index it is appended at.
pub fn add_constant(constants: &mut Vec<Value>, value: Value) -> (idx: usize)
    ensures
        values_view(final(constants)@) == add_const(values_view(old(constants)@), value@).0,
        idx as int == add_const(values_view(old(constants)@), value@).1,
        idx <= old(constants)@.len(),
    {
    let ghost pool = values_view(constants@);
    let mut i: usize = 0;
    while i < constants.len()
        invariant
            i <= constants.len(),
            constants@ == old(constants)@,
            pool == values_view(constants@),
            forall|j: int| 0 <= j < i ==> pool[j] != value@,
        decreases constants.len() - i,
    {
        if constants[i] == value {
            proof {
                assert(pool[i as int] == constants@[i as int]@);
                lemma_find_const_is(pool, value@, i as int);
            }
            return i;
        }
        proof {
            assert(pool[i as int] == constants@[i as int]@);
        }
        i += 1;
    }
    let n = constants.len();
    constants.push(value);
    proof {
        lemma_find_const_is(pool, value@, n as int);
        assert(values_view(constants@) =~= pool.push(value@));
    }
    n
}

/// Constant-pool deduplication: pooling a value and then pooling it again
/// yields the same index and the same pool — one entry referenced twice, never
/// two entries. The index names an occurrence of the value in the pool.
pub proof fn lemma_constant_dedup(pool: Seq<ValueView>, v: ValueView)
    ensures
        add_const(add_const(pool, v).0, v) == add_const(pool, v),
        0 <= add_const(pool, v).1 < add_const(pool, v).0.len(),
        add_const(pool, v).0[add_const(pool, v).1] == v,
{
    lemma_find_const(pool, v);
    let (p1, i1) = add_const(pool, v);
    if find_const(pool, v) == pool.len() {
        assert(forall|j: int| 0 <= j < pool.len() ==> pool.push(v)[j] == pool[j]);
        lemma_find_const_is(pool.push(v), v, pool.len() as int);
    }
    lemma_find_const(p1, v);
}

/// The instruction that loads one call argument into stack slot 1, together
/// with the pool it may have grown: `nil`, booleans and small integers load
/// directly; floats, strings and large integers go through the pool. Any
/// other token is an invalid argument.
pub open spec fn spec_arg_code(pool: Seq<ValueView>, t: TokenView) -> Result<
    (Seq<ValueView>, ByteCode),
    ErrorView,
> {
    match t {
        TokenView::Nil => Ok((pool, ByteCode::LoadNil(1))),
        TokenView::True => Ok((pool, ByteCode::LoadBool(1, true))),
        TokenView::False => Ok((pool, ByteCode::LoadBool(1, false))),
        TokenView::Float(f) => {
            let (pool2, ci) = add_const(pool, ValueView::Float(f));
            if ci > 255 {
                Err(ErrorView::TooManyConstants)
            } else {
                Ok((pool2, ByteCode::LoadConst(1, ci as u8)))
            }
        },
        TokenView::Str(sv) => {
            let (pool2, ci) = add_const(pool, ValueView::Str(sv));
            if ci > 255 {
                Err(ErrorView::TooManyConstants)
            } else {
                Ok((pool2, ByteCode::LoadConst(1, ci as u8)))
            }
        },
        TokenView::Integer(iv) => {
            if -32768 <= iv <= 32767 {
                Ok((pool, ByteCode::LoadInteger(1, iv as i16)))
            } else {
                let (pool2, ci) = add_const(pool, ValueView::Integer(iv));
                if ci > 255 {
                    Err(ErrorView::TooManyConstants)
                } else {
                    Ok((pool2, ByteCode::LoadConst(1, ci as u8)))
                }
            }
        },
        _ => Err(ErrorView::InvalidArgument(t)),
    }
}

/// What compilation yields: the constant pool and the instructions.
pub type LoadResult = Result<(Seq<ValueView>, Seq<ByteCode>), ErrorView>;

/// One call statement, after its callee name: the name is pooled, loaded into
/// slot 0 and resolved as a global there; the single argument — parenthesized,
/// or a bare string literal — is loaded into slot 1; the call instruction
/// closes the statement. Yields the bytes, pool and code after the statement.
pub open spec fn spec_statement(
    name: Seq<u8>,
    s: Seq<u8>,
    pool: Seq<ValueView>,
    codes: Seq<ByteCode>,
) -> Result<(Seq<u8>, Seq<ValueView>, Seq<ByteCode>), ErrorView> {
    let (pool1, ci) = add_const(pool, ValueView::Str(name));
    if ci > 255 {
        Err(ErrorView::TooManyConstants)
    } else {
        let codes1 = codes + seq![
            ByteCode::LoadConst(0, ci as u8),
            ByteCode::GetGlobal(0, ci as u8),
        ];
        match spec_next(s) {
            Err(e) => Err(e),
            Ok((t2, r2)) => match t2 {
                TokenView::ParL => match spec_next(r2) {
                    Err(e) => Err(e),
                    Ok((t3, r3)) => match spec_arg_code(pool1, t3) {
                        Err(e) => Err(e),
                        Ok((pool2, code)) => match spec_next(r3) {
                            Err(e) => Err(e),
                            Ok((t4, r4)) => {
                                if t4 == TokenView::ParR {
                                    Ok((r4, pool2, codes1 + seq![code, ByteCode::Call(0, 1)]))
                                } else {
                                    Err(ErrorView::ExpectedCloseParen(t4))
                                }
                            },
                        },
                    },
                },
                TokenView::Str(sv) => {
                    let (pool2, ci2) = add_const(pool1, ValueView::Str(sv));
                    if ci2 > 255 {
                        Err(ErrorView::TooManyConstants)
                    } else {
                        Ok(
                            (
                                r2,
                                pool2,
                                codes1 + seq![
                                    ByteCode::LoadConst(1, ci2 as u8),
                                    ByteCode::Call(0, 1),
                                ],
                            ),
                        )
                    }
                },
                _ => Err(ErrorView::ExpectedArgument(t2)),
            },
        }
    }
}

/// A compiled statement leaves strictly fewer bytes than it was given.
pub proof fn lemma_statement_rest(
    name: Seq<u8>,
    s: Seq<u8>,
    pool: Seq<ValueView>,
    codes: Seq<ByteCode>,
)
    ensures
        spec_statement(name, s, pool, codes) matches Ok(p) ==> p.0.len() < s.len(),
{
    lemma_next_shrinks(s);
    match spec_next(s) {
        Err(_) => {},
        Ok((t2, r2)) => {
            lemma_next_shrinks(r2);
            match spec_next(r2) {
                Err(_) => {},
                Ok((t3, r3)) => {
                    lemma_next_shrinks(r3);
                },
            }
        },
    }
}

/// Compilation from a mid-stream point, with the pool and code emitted so
/// far: statement after statement, until the end of input between statements
/// ends compilation.
pub open spec fn spec_load_at(s: Seq<u8>, pool: Seq<ValueView>, codes: Seq<ByteCode>) -> LoadResult
    decreases s.len(),
{
    match spec_next(s) {
        Err(e) => Err(e),
        Ok((t, r)) => match t {
            TokenView::EoF => Ok((pool, codes)),
            TokenView::VarName(name) => match spec_statement(name, r, pool, codes) {
                Err(e) => Err(e),
                Ok((r2, pool2, codes2)) => {
                    proof {
                        lemma_next_shrinks(s);
                        lemma_statement_rest(name, r, pool, codes);
                    }
                    spec_load_at(r2, pool2, codes2)
                },
            },
            _ => Err(ErrorView::UnexpectedToken(t)),
        },
    }
}

/// Compilation of a whole source: statement by statement from the start, with
/// an empty pool and no code.
pub open spec fn spec_load(s: Seq<u8>) -> LoadResult {
    spec_load_at(s, Seq::empty(), Seq::empty())
}

/// A pool in which no constant occupies two slots.
pub open spec fn no_dup(pool: Seq<ValueView>) -> bool {
    forall|i: int, j: int| 0 <= i < j < pool.len() ==> pool[i] != pool[j]
}

/// Deduplicating insertion keeps the pool free of repeats.
proof fn lemma_add_const_no_dup(pool: Seq<ValueView>, v: ValueView)
    requires
        no_dup(pool),
    ensures
        no_dup(add_const(pool, v).0),
{
    lemma_find_const(pool, v);
    if find_const(pool, v) == pool.len() {
        assert forall|i: int, j: int| 0 <= i < j < pool.push(v).len() implies pool.push(v)[i]
            != pool.push(v)[j] by {
            if j == pool.len() {
                assert(pool.push(v)[i] == pool[i]);
            }
        }
    }
}

/// Compiling one statement keeps the pool free of repeats.
proof fn lemma_statement_no_dup(
    name: Seq<u8>,
    s: Seq<u8>,
    pool: Seq<ValueView>,
    codes: Seq<ByteCode>,
)
    requires
        no_dup(pool),
    ensures
        spec_statement(name, s, pool, codes) matches Ok(p) ==> no_dup(p.1),
{
    lemma_add_const_no_dup(pool, ValueView::Str(name));
    let pool1 = add_const(pool, ValueView::Str(name)).0;
    match spec_next(s) {
        Err(_) => {},
        Ok((t2, r2)) => match t2 {
            TokenView::ParL => match spec_next(r2) {
                Err(_) => {},
                Ok((t3, r3)) => {
                    lemma_add_const_no_dup(pool1, ValueView::Str(t3->Str_0));
                    lemma_add_const_no_dup(pool1, ValueView::Float(t3->Float_0));
                    lemma_add_const_no_dup(pool1, ValueView::Integer(t3->Integer_0));
                },
            },
            TokenView::Str(sv) => {
                lemma_add_const_no_dup(pool1, ValueView::Str(sv));
            },
            _ => {},
        },
    }
}

/// Compilation from any point keeps the pool free of repeats.
proof fn lemma_load_at_no_dup(s: Seq<u8>, pool: Seq<ValueView>, codes: Seq<ByteCode>)
    requires
        no_dup(pool),
    ensures
        spec_load_at(s, pool, codes) matches Ok(p) ==> no_dup(p.0),
    decreases s.len(),
{
    match spec_next(s) {
        Err(_) => {},
        Ok((t, r)) => match t {
            TokenView::VarName(name) => match spec_statement(name, r, pool, codes) {
                Err(_) => {},
                Ok((r2, pool2, codes2)) => {
                    lemma_statement_no_dup(name, r, pool, codes);
                    lemma_next_shrinks(s);
                    lemma_statement_rest(name, r, pool, codes);
                    lemma_load_at_no_dup(r2, pool2, codes2);
                },
            },
            _ => {},
        },
    }
}

/// The constant pool of a compiled program holds each logical constant once:
/// indices are stable and the same constant never occupies two slots.
pub proof fn lemma_compiled_pool_no_dup(s: Seq<u8>)
    ensures
        spec_load(s) matches Ok(p) ==> no_dup(p.0),
{
    lemma_load_at_no_dup(s, Seq::empty(), Seq::empty());
}

/// Compiles one call statement whose callee name was just read: pools the
/// name, emits the load of the callee into slot 0, the load of the single
/// argument into slot 1, and the closing call instruction.
fn compile_statement(
    lexer: &mut Lexer,
    constants: &mut Vec<Value>,
    byte_codes: &mut Vec<ByteCode>,
    name: Vec<u8>,
) -> (r: Result<(), LuaError>)
    ensures
        match r {
            Ok(_) => spec_statement(
                name@,
                old(lexer).rest(),
                values_view(old(constants)@),
                old(byte_codes)@,
            ) == Ok::<(Seq<u8>, Seq<ValueView>, Seq<ByteCode>), ErrorView>(
                (final(lexer).rest(), values_view(final(constants)@), final(byte_codes)@),
            ),
            Err(e) => spec_statement(
                name@,
                old(lexer).rest(),
                values_view(old(constants)@),
                old(byte_codes)@,
            ) == Err::<(Seq<u8>, Seq<ValueView>, Seq<ByteCode>), ErrorView>(e@),
        },
{
    let ghost pool0 = values_view(constants@);
    let ghost codes0 = byte_codes@;
    let ci = add_constant(constants, Value::String(name));
    if ci > 255 {
        return Err(LuaError::TooManyConstants);
    }
    byte_codes.push(ByteCode::LoadConst(0, ci as u8));
    byte_codes.push(ByteCode::GetGlobal(0, ci as u8));
    let ghost codes1 = byte_codes@;
    proof {
        assert(codes1 =~= codes0 + seq![
            ByteCode::LoadConst(0, ci as u8),
            ByteCode::GetGlobal(0, ci as u8),
        ]);
    }
    match lexer.next() {
        Err(e) => Err(e),
        Ok(t2) => match t2 {
            Token::ParL => {
                match lexer.next() {
                    Err(e) => Err(e),
                    Ok(t3) => {
                        let code = match t3 {
                            Token::Nil => ByteCode::LoadNil(1),
                            Token::True => ByteCode::LoadBool(1, true),
                            Token::False => ByteCode::LoadBool(1, false),
                            Token::Float(f) => {
                                let ci2 = add_constant(constants, Value::Float(f));
                                if ci2 > 255 {
                                    return Err(LuaError::TooManyConstants);
                                }
                                ByteCode::LoadConst(1, ci2 as u8)
                            },
                            Token::String(sv) => {
                                let ci2 = add_constant(constants, Value::String(sv));
                                if ci2 > 255 {
                                    return Err(LuaError::TooManyConstants);
                                }
                                ByteCode::LoadConst(1, ci2 as u8)
                            },
                            Token::Integer(iv) => {
                                if iv >= -32768 && iv <= 32767 {
                                    ByteCode::LoadInteger(1, iv as i16)
                                } else {
                                    let ci2 = add_constant(constants, Value::Integer(iv));
                                    if ci2 > 255 {
                                        return Err(LuaError::TooManyConstants);
                                    }
                                    ByteCode::LoadConst(1, ci2 as u8)
                                }
                            },
                            _ => {
                                return Err(LuaError::InvalidArgument(t3));
                            },
                        };
                        byte_codes.push(code);
                        match lexer.next() {
                            Err(e) => Err(e),
                            Ok(t4) => match t4 {
                                Token::ParR => {
                                    byte_codes.push(ByteCode::Call(0, 1));
                                    proof {
                                        assert(byte_codes@ =~= codes1 + seq![
                                            code,
                                            ByteCode::Call(0, 1),
                                        ]);
                                    }
                                    Ok(())
                                },
                                _ => Err(LuaError::ExpectedCloseParen(t4)),
                            },
                        }
                    },
                }
            },
            Token::String(sv) => {
                let ci2 = add_constant(constants, Value::String(sv));
                if ci2 > 255 {
                    return Err(LuaError::TooManyConstants);
                }
                byte_codes.push(ByteCode::LoadConst(1, ci2 as u8));
                byte_codes.push(ByteCode::Call(0, 1));
                proof {
                    assert(byte_codes@ =~= codes1 + seq![
                        ByteCode::LoadConst(1, ci2 as u8),
                        ByteCode::Call(0, 1),
                    ]);
                }
                Ok(())
            },
            _ => Err(LuaError::ExpectedArgument(t2)),
        },
    }
}

/// Compiles the next statement, or recognizes the end of input (yielding
/// `true`). Exactly one step of what `spec_load_at` defines.
fn load_step(
    lexer: &mut Lexer,
    constants: &mut Vec<Value>,
    byte_codes: &mut Vec<ByteCode>,
) -> (r: Result<bool, LuaError>)
    ensures
        match r {
            Ok(done) => if done {
                spec_load_at(old(lexer).rest(), values_view(old(constants)@), old(byte_codes)@)
                    == Ok::<(Seq<ValueView>, Seq<ByteCode>), ErrorView>(
                    (values_view(final(constants)@), final(byte_codes)@),
                )
            } else {
                spec_load_at(old(lexer).rest(), values_view(old(constants)@), old(byte_codes)@)
                    == spec_load_at(
                    final(lexer).rest(),
                    values_view(final(constants)@),
                    final(byte_codes)@,
                ) && final(lexer).rest().len() < old(lexer).rest().len()
            },
            Err(e) => spec_load_at(
                old(lexer).rest(),
                values_view(old(constants)@),
                old(byte_codes)@,
            ) == Err::<(Seq<ValueView>, Seq<ByteCode>), ErrorView>(e@),
        },
{
    let ghost pre = lexer.rest();
    let ghost pool0 = values_view(constants@);
    let ghost codes0 = byte_codes@;
    match lexer.next() {
        Err(e) => Err(e),
        Ok(t) => {
            proof {
                lemma_next_shrinks(pre);
            }
            match t {
                Token::EoF => Ok(true),
                Token::VarName(name) => {
                    let ghost stmt_pre = lexer.rest();
                    let ghost namev = name@;
                    match compile_statement(lexer, constants, byte_codes, name) {
                        Err(e) => Err(e),
                        Ok(_) => {
                            proof {
                                lemma_statement_rest(namev, stmt_pre, pool0, codes0);
                            }
                            Ok(false)
                        },
                    }
                },
                _ => Err(LuaError::UnexpectedToken(t)),
            }
        },
    }
}

/// Compiles a whole source into a program: drives the tokenizer statement by
/// statement, emitting code and pooling constants, and fails as a value on
/// any lexical or syntax error.
#[verifier::loop_isolation(false)]
pub fn load(input: Vec<u8>) -> (r: Result<ParsedProto, LuaError>)
    ensures
        match r {
            Ok(proto) => spec_load(input@) == Ok::<(Seq<ValueView>, Seq<ByteCode>), ErrorView>(
                (values_view(proto.constants@), proto.byte_codes@),
            ),
            Err(e) => spec_load(input@) == Err::<(Seq<ValueView>, Seq<ByteCode>), ErrorView>(e@),
        },
{
    let ghost inp = input@;
    let mut constants: Vec<Value> = Vec::new();
    let mut byte_codes: Vec<ByteCode> = Vec::new();
    let mut lexer = Lexer::new(input);
    proof {
        assert(values_view(constants@) =~= Seq::<ValueView>::empty());
    }
    loop
        invariant
            spec_load_at(lexer.rest(), values_view(constants@), byte_codes@) == spec_load(inp),
        decreases lexer.rest().len(),
    {
        let ghost pool_pre = values_view(constants@);
        let ghost codes_pre = byte_codes@;
        let ghost rest_pre = lexer.rest();
        match load_step(&mut lexer, &mut constants, &mut byte_codes) {
            Err(e) => {
                proof {
                    assert(spec_load_at(rest_pre, pool_pre, codes_pre) == Err::<
                        (Seq<ValueView>, Seq<ByteCode>),
                        ErrorView,
                    >(e@));
                    assert(spec_load(inp) == Err::<(Seq<ValueView>, Seq<ByteCode>), ErrorView>(e@));
                }
                return Err(e);
            },
            Ok(true) => {
                proof {
                    assert(spec_load(inp) == Ok::<(Seq<ValueView>, Seq<ByteCode>), ErrorView>(
                        (values_view(constants@), byte_codes@),
                    ));
                }
                return Ok(ParsedProto { constants, byte_codes });
            },
            Ok(false) => {},
        }
    }
}

} // verus!
