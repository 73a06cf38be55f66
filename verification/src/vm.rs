//! The execution engine: a value stack and a global environment, interpreting
//! the compiled instruction sequence strictly in order and dispatching host
//! (built-in) functions. `spec_run` is the mathematical definition of
//! execution; `ExeState::execute` is proved to follow it.

use crate::enums::render_value;
use crate::enums::ByteCode;
use crate::enums::ErrorView;
use crate::enums::HostFn;
use crate::enums::LuaError;
use crate::enums::Value;
use crate::enums::ValueView;
use crate::enums::bytes_eq;
use crate::parser::values_view;
use crate::parser::ParsedProto;
use vstd::pervasive::VecAdditionalExecFns;
use vstd::prelude::*;

verus! {

/// The mathematical model of the execution state: the global environment as a
/// map, the operand stack, and the lines written so far.
pub struct StateView {
    pub globals: Map<Seq<u8>, ValueView>,
    pub stack: Seq<ValueView>,
    pub output: Seq<Seq<u8>>,
}

/// The global environment as a map: later entries would win, though a
/// well-formed state never repeats a key.
pub open spec fn globals_map(g: Seq<(Vec<u8>, Value)>) -> Map<Seq<u8>, ValueView>
    decreases g.len(),
{
    if g.len() == 0 {
        Map::empty()
    } else {
        globals_map(g.drop_last()).insert(g.last().0@, g.last().1@)
    }
}

/// The execution state: the global name-to-value environment, the operand
/// stack, and the output lines the print built-in has written. The stack and
/// the environment are the only mutable state of the pipeline.
pub struct ExeState {
    globals: Vec<(Vec<u8>, Value)>,
    stack: Vec<Value>,
    output: Vec<Vec<u8>>,
}

impl View for ExeState {
    type V = StateView;

    closed spec fn view(&self) -> StateView {
        StateView {
            globals: globals_map(self.globals@),
            stack: values_view(self.stack@),
            output: self.output@.map_values(|l: Vec<u8>| l@),
        }
    }
}

/// A key present at `i` is in the map, with the value that stands beside it,
/// provided no later entry repeats the key.
proof fn lemma_globals_map_get(g: Seq<(Vec<u8>, Value)>, i: int)
    requires
        0 <= i < g.len(),
        forall|j: int, k: int| 0 <= j < k < g.len() ==> g[j].0@ != g[k].0@,
    ensures
        globals_map(g).contains_key(g[i].0@),
        globals_map(g)[g[i].0@] == g[i].1@,
    decreases g.len(),
{
    if i + 1 < g.len() {
        assert(g.drop_last()[i] == g[i]);
        lemma_globals_map_get(g.drop_last(), i);
        assert(g[i].0@ != g.last().0@);
    }
}

/// A key beside no entry is not in the map.
proof fn lemma_globals_map_absent(g: Seq<(Vec<u8>, Value)>, key: Seq<u8>)
    requires
        forall|j: int| 0 <= j < g.len() ==> g[j].0@ != key,
    ensures
        !globals_map(g).contains_key(key),
    decreases g.len(),
{
    if g.len() > 0 {
        assert(forall|j: int| 0 <= j < g.drop_last().len() ==> g.drop_last()[j] == g[j]);
        lemma_globals_map_absent(g.drop_last(), key);
    }
}

/// Writing `v` at slot `i`: at the stack's length it appends, below it
/// overwrites in place, beyond it the write is out of bounds and nothing
/// changes. The stack never holds an uninitialized gap.
pub open spec fn spec_set_stack(stack: Seq<ValueView>, i: int, v: ValueView) -> Result<
    Seq<ValueView>,
    ErrorView,
> {
    if i == stack.len() {
        Ok(stack.push(v))
    } else if i < stack.len() {
        Ok(stack.update(i, v))
    } else {
        Err(ErrorView::StackIndexOutOfBounds)
    }
}

/// The stack-write invariant: a write at the next free slot appends and one
/// below the length replaces exactly that slot, so a stack built by writes at
/// increasing-by-one indices never holds a gap; a write more than one past the
/// end fails with the out-of-bounds error and changes nothing.
pub proof fn lemma_stack_write(stack: Seq<ValueView>, i: int, v: ValueView)
    requires
        0 <= i,
    ensures
        i <= stack.len() ==> {
            &&& spec_set_stack(stack, i, v) is Ok
            &&& spec_set_stack(stack, i, v)->Ok_0.len() == if i == stack.len() {
                stack.len() + 1
            } else {
                stack.len()
            }
            &&& spec_set_stack(stack, i, v)->Ok_0[i] == v
            &&& forall|j: int|
                0 <= j < stack.len() && j != i ==> spec_set_stack(stack, i, v)->Ok_0[j] == stack[j]
        },
        i > stack.len() ==> spec_set_stack(stack, i, v) == Err::<Seq<ValueView>, ErrorView>(
            ErrorView::StackIndexOutOfBounds,
        ),
{
}

/// The print built-in: renders the value at the conventional argument slot 1
/// and appends the text as one output line, returning status 0; a stack too
/// short to hold an argument is an out-of-bounds access.
pub open spec fn spec_print(st: StateView) -> Result<StateView, ErrorView> {
    if st.stack.len() < 2 {
        Err(ErrorView::StackIndexOutOfBounds)
    } else {
        Ok(StateView { output: st.output.push(render_value(st.stack[1])), ..st })
    }
}

/// Dispatch of a host function by its tag.
pub open spec fn spec_call_host(f: HostFn, st: StateView) -> Result<StateView, ErrorView> {
    match f {
        HostFn::Print => spec_print(st),
    }
}

/// One instruction: what it does to the state, or the runtime error it stops
/// the run with.
pub open spec fn spec_step(st: StateView, consts: Seq<ValueView>, code: ByteCode) -> Result<
    StateView,
    ErrorView,
> {
    match code {
        ByteCode::GetGlobal(dst, name) => {
            if name >= consts.len() {
                Err(ErrorView::ConstantIndexOutOfBounds)
            } else {
                match consts[name as int] {
                    ValueView::Str(key) => {
                        let v = if st.globals.contains_key(key) {
                            st.globals[key]
                        } else {
                            ValueView::Nil
                        };
                        match spec_set_stack(st.stack, dst as int, v) {
                            Ok(s2) => Ok(StateView { stack: s2, ..st }),
                            Err(e) => Err(e),
                        }
                    },
                    nv => Err(ErrorView::InvalidGlobalKey(nv)),
                }
            }
        },
        ByteCode::LoadConst(dst, ci) => {
            if ci >= consts.len() {
                Err(ErrorView::ConstantIndexOutOfBounds)
            } else {
                match spec_set_stack(st.stack, dst as int, consts[ci as int]) {
                    Ok(s2) => Ok(StateView { stack: s2, ..st }),
                    Err(e) => Err(e),
                }
            }
        },
        ByteCode::Call(fi, _n) => {
            if fi >= st.stack.len() {
                Err(ErrorView::StackIndexOutOfBounds)
            } else {
                match st.stack[fi as int] {
                    ValueView::Function(h) => spec_call_host(h, st),
                    v => Err(ErrorView::NotAFunction(v)),
                }
            }
        },
        ByteCode::LoadNil(dst) => match spec_set_stack(st.stack, dst as int, ValueView::Nil) {
            Ok(s2) => Ok(StateView { stack: s2, ..st }),
            Err(e) => Err(e),
        },
        ByteCode::LoadBool(dst, b) => match spec_set_stack(
            st.stack,
            dst as int,
            ValueView::Boolean(b),
        ) {
            Ok(s2) => Ok(StateView { stack: s2, ..st }),
            Err(e) => Err(e),
        },
        ByteCode::LoadInteger(dst, v) => match spec_set_stack(
            st.stack,
            dst as int,
            ValueView::Integer(v as i64),
        ) {
            Ok(s2) => Ok(StateView { stack: s2, ..st }),
            Err(e) => Err(e),
        },
    }
}

/// A whole run: instructions strictly in sequence, stopping at the first
/// error. Yields the state as it stands when the run ends, and the error if
/// one stopped it.
pub open spec fn spec_run(st: StateView, consts: Seq<ValueView>, codes: Seq<ByteCode>) -> (
    StateView,
    Option<ErrorView>,
)
    decreases codes.len(),
{
    if codes.len() == 0 {
        (st, None)
    } else {
        match spec_step(st, consts, codes[0]) {
            Err(e) => (st, Some(e)),
            Ok(st2) => spec_run(st2, consts, codes.skip(1)),
        }
    }
}

/// The print built-in as executable code: reads the argument at slot 1 and
/// appends its rendering to the output, returning status 0.
pub fn lib_print(state: &mut ExeState) -> (r: Result<i32, LuaError>)
    ensures
        old(state).wf() ==> final(state).wf(),
        match r {
            Ok(code) => code == 0 && spec_print(old(state)@) == Ok::<StateView, ErrorView>(
                final(state)@,
            ),
            Err(e) => spec_print(old(state)@) == Err::<StateView, ErrorView>(e@) && final(state)@
                == old(state)@,
        },
{
    if state.stack.len() < 2 {
        return Err(LuaError::StackIndexOutOfBounds);
    }
    let line = state.stack[1].render();
    state.output.push(line);
    proof {
        assert(state@.output =~= old(state)@.output.push(render_value(old(state)@.stack[1])));
        assert(state@ == StateView {
            output: old(state)@.output.push(render_value(old(state)@.stack[1])),
            ..old(state)@
        });
    }
    Ok(0)
}

impl ExeState {
    /// Well-formed: no global name occupies two entries.
    pub closed spec fn wf(&self) -> bool {
        forall|j: int, k: int|
            0 <= j < k < self.globals@.len() ==> self.globals@[j].0@ != self.globals@[k].0@
    }

    /// A fresh execution state: an empty stack, no output, and the global
    /// environment seeded with the built-ins — here `print`.
    pub fn new() -> (r: ExeState)
        ensures
            r.wf(),
            r@.stack == Seq::<ValueView>::empty(),
            r@.output == Seq::<Seq<u8>>::empty(),
            r@.globals == Map::<Seq<u8>, ValueView>::empty().insert(
                seq![112u8, 114u8, 105u8, 110u8, 116u8],
                ValueView::Function(HostFn::Print),
            ),
    {
        let mut name: Vec<u8> = Vec::new();
        name.push(112);
        name.push(114);
        name.push(105);
        name.push(110);
        name.push(116);
        proof {
            assert(name@ =~= seq![112u8, 114u8, 105u8, 110u8, 116u8]);
        }
        let mut globals: Vec<(Vec<u8>, Value)> = Vec::new();
        globals.push((name, Value::Function(HostFn::Print)));
        let r = ExeState { globals, stack: Vec::new(), output: Vec::new() };
        proof {
            assert(r.globals@.drop_last() =~= Seq::<(Vec<u8>, Value)>::empty());
            assert(globals_map(r.globals@.drop_last()) == Map::<Seq<u8>, ValueView>::empty());
            assert(r.globals@.last().0@ == seq![112u8, 114u8, 105u8, 110u8, 116u8]);
            assert(r@.globals =~= Map::<Seq<u8>, ValueView>::empty().insert(
                seq![112u8, 114u8, 105u8, 110u8, 116u8],
                ValueView::Function(HostFn::Print),
            ));
            assert(r@.stack =~= Seq::<ValueView>::empty());
            assert(r@.output =~= Seq::<Seq<u8>>::empty());
        }
        r
    }

    /// The value of a global, nil when the name is unbound.
    fn get_global(&self, key: &Vec<u8>) -> (v: Value)
        requires
            self.wf(),
        ensures
            v@ == if self@.globals.contains_key(key@) {
                self@.globals[key@]
            } else {
                ValueView::Nil
            },
    {
        let mut i: usize = 0;
        while i < self.globals.len()
            invariant
                i <= self.globals@.len(),
                self.wf(),
                forall|j: int| 0 <= j < i ==> self.globals@[j].0@ != key@,
            decreases self.globals@.len() - i,
        {
            if bytes_eq(&self.globals[i].0, key) {
                proof {
                    lemma_globals_map_get(self.globals@, i as int);
                }
                return self.globals[i].1.clone();
            }
            i += 1;
        }
        proof {
            lemma_globals_map_absent(self.globals@, key@);
        }
        Value::Nil
    }

    /// Writes `value` into stack slot `index`: appends at the stack's length,
    /// overwrites below it, and reports an out-of-bounds write beyond it — the
    /// stack never holds an uninitialized gap.
    pub fn set_stack(&mut self, index: u8, value: Value) -> (r: Result<(), LuaError>)
        ensures
            old(self).wf() ==> final(self).wf(),
            final(self)@.globals == old(self)@.globals,
            final(self)@.output == old(self)@.output,
            match r {
                Ok(_) => spec_set_stack(old(self)@.stack, index as int, value@) == Ok::<
                    Seq<ValueView>,
                    ErrorView,
                >(final(self)@.stack),
                Err(e) => spec_set_stack(old(self)@.stack, index as int, value@) == Err::<
                    Seq<ValueView>,
                    ErrorView,
                >(e@) && final(self)@ == old(self)@,
            },
    {
        let i = index as usize;
        if i == self.stack.len() {
            self.stack.push(value);
            proof {
                assert(values_view(self.stack@) =~= values_view(old(self).stack@).push(value@));
            }
            Ok(())
        } else if i < self.stack.len() {
            self.stack.set(i, value);
            proof {
                assert(values_view(self.stack@) =~= values_view(old(self).stack@).update(
                    i as int,
                    value@,
                ));
            }
            Ok(())
        } else {
            Err(LuaError::StackIndexOutOfBounds)
        }
    }

    /// Executes one instruction of the program.
    fn exec_step(&mut self, proto: &ParsedProto, pc: usize) -> (r: Result<(), LuaError>)
        requires
            old(self).wf(),
            pc < proto.byte_codes@.len(),
        ensures
            final(self).wf(),
            match r {
                Ok(_) => spec_step(
                    old(self)@,
                    values_view(proto.constants@),
                    proto.byte_codes@[pc as int],
                ) == Ok::<StateView, ErrorView>(final(self)@),
                Err(e) => spec_step(
                    old(self)@,
                    values_view(proto.constants@),
                    proto.byte_codes@[pc as int],
                ) == Err::<StateView, ErrorView>(e@) && final(self)@ == old(self)@,
            },
    {
        let code = proto.byte_codes[pc];
        match code {
            ByteCode::GetGlobal(dst, name) => {
                if name as usize >= proto.constants.len() {
                    return Err(LuaError::ConstantIndexOutOfBounds);
                }
                match &proto.constants[name as usize] {
                    Value::String(key) => {
                        let v = self.get_global(key);
                        match self.set_stack(dst, v) {
                            Ok(_) => Ok(()),
                            Err(e) => Err(e),
                        }
                    },
                    other => Err(LuaError::InvalidGlobalKey(other.clone())),
                }
            },
            ByteCode::LoadConst(dst, ci) => {
                if ci as usize >= proto.constants.len() {
                    return Err(LuaError::ConstantIndexOutOfBounds);
                }
                let v = proto.constants[ci as usize].clone();
                match self.set_stack(dst, v) {
                    Ok(_) => Ok(()),
                    Err(e) => Err(e),
                }
            },
            ByteCode::Call(fi, _n) => {
                if fi as usize >= self.stack.len() {
                    return Err(LuaError::StackIndexOutOfBounds);
                }
                let hf = match &self.stack[fi as usize] {
                    Value::Function(h) => *h,
                    other => {
                        return Err(LuaError::NotAFunction(other.clone()));
                    },
                };
                match hf {
                    HostFn::Print => match lib_print(self) {
                        Ok(_) => Ok(()),
                        Err(e) => Err(e),
                    },
                }
            },
            ByteCode::LoadNil(dst) => match self.set_stack(dst, Value::Nil) {
                Ok(_) => Ok(()),
                Err(e) => Err(e),
            },
            ByteCode::LoadBool(dst, b) => match self.set_stack(dst, Value::Boolean(b)) {
                Ok(_) => Ok(()),
                Err(e) => Err(e),
            },
            ByteCode::LoadInteger(dst, v) => match self.set_stack(dst, Value::Integer(v as i64)) {
                Ok(_) => Ok(()),
                Err(e) => Err(e),
            },
        }
    }

    /// Interprets the program's instructions strictly in sequence against this
    /// state, stopping at the first runtime error and reporting it as a value.
    #[verifier::loop_isolation(false)]
    pub fn execute(&mut self, proto: &ParsedProto) -> (r: Result<(), LuaError>)
        requires
            old(self).wf(),
        ensures
            final(self).wf(),
            final(self)@ == spec_run(old(self)@, values_view(proto.constants@), proto.byte_codes@).0,
            match r {
                Ok(_) => spec_run(
                    old(self)@,
                    values_view(proto.constants@),
                    proto.byte_codes@,
                ).1 is None,
                Err(e) => spec_run(old(self)@, values_view(proto.constants@), proto.byte_codes@).1
                    == Some(e@),
            },
    {
        let ghost consts = values_view(proto.constants@);
        let ghost codes = proto.byte_codes@;
        let mut pc: usize = 0;
        proof {
            assert(codes.skip(0) =~= codes);
        }
        while pc < proto.byte_codes.len()
            invariant
                self.wf(),
                pc <= codes.len(),
                spec_run(old(self)@, consts, codes) == spec_run(self@, consts, codes.skip(pc as int)),
            decreases codes.len() - pc,
        {
            let ghost pre = self@;
            match self.exec_step(proto, pc) {
                Ok(_) => {
                    proof {
                        assert(codes.skip(pc as int)[0] == codes[pc as int]);
                        assert(codes.skip(pc as int).skip(1) =~= codes.skip(pc as int + 1));
                    }
                    pc = pc + 1;
                },
                Err(e) => {
                    proof {
                        assert(codes.skip(pc as int)[0] == codes[pc as int]);
                    }
                    return Err(e);
                },
            }
        }
        proof {
            assert(codes.skip(codes.len() as int) =~= Seq::<ByteCode>::empty());
        }
        Ok(())
    }

    /// The operand stack, for observation.
    pub fn stack(&self) -> (r: &Vec<Value>)
        ensures
            values_view(r@) == self@.stack,
    {
        &self.stack
    }

    /// The lines printed so far, one per call of the print built-in.
    pub fn output(&self) -> (r: &Vec<Vec<u8>>)
        ensures
            r@.map_values(|l: Vec<u8>| l@) == self@.output,
    {
        &self.output
    }
}

} // verus!
