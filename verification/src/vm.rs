//! The execution engine: a dispatch loop over a chunk's bytecode with an
//! operand stack of constant-pool indices.

use crate::chunk::Chunk;
use crate::list::List;
use crate::opcode::{negate, negated, OpCode, Value};
use crate::text::{decimal, push_decimal, push_repeated, repeated};
use vstd::prelude::*;

verus! {

/// Why a run did not succeed.
#[derive(Clone, Copy, Debug, PartialEq, Eq, Structural)]
pub enum InterpretError {
    /// Reserved for a front end that turns source text into bytecode.
    Compile,
    /// The bytecode could not be decoded or carried out.
    Runtime,
}

/// An arithmetic operation on two values.
#[derive(Clone, Copy, Debug, PartialEq, Eq, Structural)]
pub enum BinaryOp {
    Add,
    Subtract,
    Multiply,
    Divide,
}

/// The arithmetic operation that `op` stands for, if it is one.
pub open spec fn binary_op(op: OpCode) -> Option<BinaryOp> {
    match op {
        OpCode::Add => Some(BinaryOp::Add),
        OpCode::Subtract => Some(BinaryOp::Subtract),
        OpCode::Multiply => Some(BinaryOp::Multiply),
        OpCode::Divide => Some(BinaryOp::Divide),
        _ => None,
    }
}

/// What a run works on: the constant pool and the operand stack, whose
/// entries are indices into the pool and whose top is its last entry.
pub struct Machine {
    pub constants: Seq<Value>,
    pub stack: Seq<usize>,
}

/// How a run ended: what it left in the pool and on the stack, and the value
/// it reported (`Ok(None)` where it had none to report) or its failure.
pub struct Outcome {
    pub machine: Machine,
    pub result: Result<Option<Value>, InterpretError>,
}

impl Machine {
    /// Whether the top of the stack is an index into the pool.
    pub open spec fn top_resolves(self) -> bool {
        self.stack.len() >= 1 && self.stack.last() < self.constants.len()
    }

    /// Whether the two topmost stack entries are indices into the pool.
    pub open spec fn operands_resolve(self) -> bool {
        &&& self.stack.len() >= 2
        &&& self.stack[self.stack.len() - 1] < self.constants.len()
        &&& self.stack[self.stack.len() - 2] < self.constants.len()
    }

    /// The left operand of an arithmetic instruction: the constant that the
    /// entry below the top refers to.
    pub open spec fn left(self) -> Value {
        self.constants[self.stack[self.stack.len() - 2] as int]
    }

    /// The right operand of an arithmetic instruction: the constant that the
    /// top refers to.
    pub open spec fn right(self) -> Value {
        self.constants[self.stack[self.stack.len() - 1] as int]
    }

    /// After `LoadConstant` with operand `index`: the index is pushed.
    pub open spec fn load(self, index: u8) -> Machine {
        Machine { stack: self.stack.push(index as usize), ..self }
    }

    /// After `Negate`: the constant that the top refers to is negated in
    /// its slot.
    pub open spec fn negate(self) -> Machine {
        let slot = self.stack.last() as int;
        Machine { constants: self.constants.update(slot, negated(self.constants[slot])), ..self }
    }

    /// After an arithmetic instruction whose result is `value`: both operand
    /// indices are popped, `value` gets a new slot at the end of the pool and
    /// that slot's index is pushed.
    pub open spec fn combine(self, value: Value) -> Machine {
        Machine {
            constants: self.constants.push(value),
            stack: self.stack.drop_last().drop_last().push(self.constants.len() as usize),
        }
    }

    /// A run that fails here: the machine stays as it is.
    pub open spec fn fail(self) -> Outcome {
        Outcome { machine: self, result: Err(InterpretError::Runtime) }
    }

    /// A run that meets `Return` here. With an empty stack it ends with
    /// nothing to report; otherwise it pops the top and reports the constant
    /// that it refers to, and fails if it refers to none.
    pub open spec fn finish(self) -> Outcome {
        if self.stack.len() == 0 {
            Outcome { machine: self, result: Ok(None) }
        } else if self.top_resolves() {
            Outcome {
                machine: Machine { stack: self.stack.drop_last(), ..self },
                result: Ok(Some(self.constants[self.stack.last() as int])),
            }
        } else {
            self.fail()
        }
    }
}

/// What an arithmetic unit can return: `computes(op, left, right, value)`
/// says that `value` is a result of `op` on `left` and `right`.
pub type Arithmetic = spec_fn(BinaryOp, Value, Value, Value) -> bool;

/// What `alu` can return, as its contract states it.
pub open spec fn arithmetic_of<F: Fn(BinaryOp, Value, Value) -> Value>(alu: F) -> Arithmetic {
    |op: BinaryOp, left: Value, right: Value, value: Value|
        call_ensures(alu, (op, left, right), value)
}

/// Whether a run of `code` that stands at `ip` with `machine` can end as
/// `outcome`, where `computes` tells the results of the arithmetic.
///
/// The run fails where `ip` is outside the code, the byte there encodes no
/// instruction, a `LoadConstant` lacks its operand byte, or an instruction
/// finds the stack too short or an index on it that is outside the pool.
pub open spec fn reaches(
    computes: Arithmetic,
    code: Seq<u8>,
    machine: Machine,
    ip: int,
    outcome: Outcome,
) -> bool
    decreases code.len() + 1 - ip,
{
    if 0 <= ip < code.len() {
        match OpCode::decode(code[ip]) {
            None => outcome == machine.fail(),
            Some(OpCode::Return) => outcome == machine.finish(),
            Some(OpCode::LoadConstant) => if ip + 1 < code.len() {
                reaches(computes, code, machine.load(code[ip + 1]), ip + 2, outcome)
            } else {
                outcome == machine.fail()
            },
            Some(OpCode::Negate) => if machine.top_resolves() {
                reaches(computes, code, machine.negate(), ip + 1, outcome)
            } else {
                outcome == machine.fail()
            },
            Some(op) => if machine.operands_resolve() {
                exists|value: Value|
                    computes(binary_op(op).unwrap(), machine.left(), machine.right(), value)
                        && reaches(computes, code, machine.combine(value), ip + 1, outcome)
            } else {
                outcome == machine.fail()
            },
        }
    } else {
        outcome == machine.fail()
    }
}

/// Whether `computes` gives `op` on `left` and `right` a result.
pub open spec fn has_result(computes: Arithmetic, op: BinaryOp, left: Value, right: Value) -> bool {
    exists|value: Value| #[trigger] computes(op, left, right, value)
}

/// Whether `computes` gives every operation on two operands a result.
pub open spec fn is_total(computes: Arithmetic) -> bool {
    forall|op: BinaryOp, left: Value, right: Value| #[trigger] has_result(computes, op, left, right)
}

/// Whether `computes` gives no operation on two operands two results.
pub open spec fn is_single_valued(computes: Arithmetic) -> bool {
    forall|op: BinaryOp, left: Value, right: Value, first: Value, second: Value|
        #[trigger] computes(op, left, right, first) && #[trigger] computes(
            op,
            left,
            right,
            second,
        ) ==> first == second
}

/// Every run ends: from any position and machine there is an outcome that
/// the run reaches, provided the arithmetic always gives a result.
pub proof fn lemma_run_ends(computes: Arithmetic, code: Seq<u8>, machine: Machine, ip: int)
    requires
        is_total(computes),
    ensures
        exists|outcome: Outcome| reaches(computes, code, machine, ip, outcome),
    decreases code.len() + 1 - ip,
{
    if 0 <= ip < code.len() {
        match OpCode::decode(code[ip]) {
            None => {
                assert(reaches(computes, code, machine, ip, machine.fail()));
            },
            Some(OpCode::Return) => {
                assert(reaches(computes, code, machine, ip, machine.finish()));
            },
            Some(OpCode::LoadConstant) => {
                if ip + 1 < code.len() {
                    let next = machine.load(code[ip + 1]);
                    let at = ip + 2;
                    lemma_run_ends(computes, code, next, at);
                    let outcome = choose|outcome: Outcome|
                        reaches(computes, code, next, at, outcome);
                    assert(reaches(computes, code, machine, ip, outcome));
                } else {
                    assert(reaches(computes, code, machine, ip, machine.fail()));
                }
            },
            Some(OpCode::Negate) => {
                if machine.top_resolves() {
                    let next = machine.negate();
                    let at = ip + 1;
                    lemma_run_ends(computes, code, next, at);
                    let outcome = choose|outcome: Outcome|
                        reaches(computes, code, next, at, outcome);
                    assert(reaches(computes, code, machine, ip, outcome));
                } else {
                    assert(reaches(computes, code, machine, ip, machine.fail()));
                }
            },
            Some(op) => {
                if machine.operands_resolve() {
                    let operation = binary_op(op).unwrap();
                    assert(has_result(computes, operation, machine.left(), machine.right()));
                    let value = choose|value: Value|
                        #[trigger] computes(operation, machine.left(), machine.right(), value);
                    let next = machine.combine(value);
                    let at = ip + 1;
                    lemma_run_ends(computes, code, next, at);
                    let outcome = choose|outcome: Outcome|
                        reaches(computes, code, next, at, outcome);
                    assert(reaches(computes, code, machine, ip, outcome));
                } else {
                    assert(reaches(computes, code, machine, ip, machine.fail()));
                }
            },
        }
    } else {
        assert(reaches(computes, code, machine, ip, machine.fail()));
    }
}

/// A run has one outcome only, provided the arithmetic gives no two results
/// for the same operation and operands.
pub proof fn lemma_outcome_unique(
    computes: Arithmetic,
    code: Seq<u8>,
    machine: Machine,
    ip: int,
    first: Outcome,
    second: Outcome,
)
    requires
        is_single_valued(computes),
        reaches(computes, code, machine, ip, first),
        reaches(computes, code, machine, ip, second),
    ensures
        first == second,
    decreases code.len() + 1 - ip,
{
    if 0 <= ip < code.len() {
        match OpCode::decode(code[ip]) {
            None => {},
            Some(OpCode::Return) => {},
            Some(OpCode::LoadConstant) => {
                if ip + 1 < code.len() {
                    lemma_outcome_unique(
                        computes,
                        code,
                        machine.load(code[ip + 1]),
                        ip + 2,
                        first,
                        second,
                    );
                }
            },
            Some(OpCode::Negate) => {
                if machine.top_resolves() {
                    lemma_outcome_unique(computes, code, machine.negate(), ip + 1, first, second);
                }
            },
            Some(op) => {
                if machine.operands_resolve() {
                    let operation = binary_op(op).unwrap();
                    let at = ip + 1;
                    let one = choose|value: Value|
                        #[trigger] computes(operation, machine.left(), machine.right(), value)
                            && reaches(computes, code, machine.combine(value), at, first);
                    let other = choose|value: Value|
                        #[trigger] computes(operation, machine.left(), machine.right(), value)
                            && reaches(computes, code, machine.combine(value), at, second);
                    assert(one == other);
                    lemma_outcome_unique(
                        computes,
                        code,
                        machine.combine(one),
                        ip + 1,
                        first,
                        second,
                    );
                }
            },
        }
    }
}

/// The entries of `stack` as text, bottom first, each between `[ ` and ` ]`.
pub open spec fn stack_entries(stack: Seq<usize>) -> Seq<char>
    decreases stack.len(),
{
    if stack.len() == 0 {
        Seq::empty()
    } else {
        stack_entries(stack.drop_last()) + seq!['[', ' '] + decimal(stack.last() as nat) + seq![
            ' ',
            ']',
        ]
    }
}

/// The line that shows `stack`: ten spaces, the entries, a line feed.
pub open spec fn stack_text(stack: Seq<usize>) -> Seq<char> {
    repeated(' ', 10) + stack_entries(stack) + seq!['\n']
}

/// The virtual machine: an operand stack of constant-pool indices. `self@`
/// is the stack, its top last.
pub struct VM {
    stack: List<usize>,
}

impl View for VM {
    type V = Seq<usize>;

    closed spec fn view(&self) -> Seq<usize> {
        self.stack@
    }
}

impl VM {
    /// The machine's invariant.
    pub closed spec fn well_formed(&self) -> bool {
        self.stack.well_formed()
    }

    /// A machine with an empty stack.
    pub fn new() -> (vm: VM)
        ensures
            vm.well_formed(),
            vm@ == Seq::<usize>::empty(),
    {
        broadcast use vstd::layout::layout_of_primitives;

        VM { stack: List::new() }
    }

    /// The number of entries on the operand stack.
    pub fn stack_len(&self) -> (depth: usize)
        ensures
            depth == self@.len(),
    {
        self.stack.len()
    }

    /// The operand stack as a line of text, bottom first.
    pub fn to_string(&self) -> (text: String)
        ensures
            text@ == stack_text(self@),
    {
        let mut out = String::new();
        proof {
            reveal_strlit(" ");
            reveal_strlit("\n");
        }
        push_repeated(&mut out, " ", 10);
        assert(out@ =~= repeated(' ', 10) + stack_entries(self@.take(0)));
        let depth = self.stack.len();
        let mut i: usize = 0;
        while i < depth
            invariant
                i <= depth,
                depth == self@.len(),
                out@ == repeated(' ', 10) + stack_entries(self@.take(i as int)),
            decreases depth - i,
        {
            proof {
                reveal_strlit("[ ");
                reveal_strlit(" ]");
            }
            out.append("[ ");
            push_decimal(&mut out, *self.stack.get(i));
            out.append(" ]");
            proof {
                let shown = self@.take(i + 1);
                assert(shown.drop_last() =~= self@.take(i as int));
                assert(shown.last() == self@[i as int]);
                assert(out@ =~= repeated(' ', 10) + stack_entries(shown));
            }
            i = i + 1;
        }
        assert(self@.take(depth as int) =~= self@);
        out.append("\n");
        out
    }

    /// The machine and pool that a run on `chunk` starts from or ends with.
    pub open spec fn machine(&self, chunk: &Chunk) -> Machine {
        Machine { constants: chunk@.constants, stack: self@ }
    }

    /// Runs the bytecode of `chunk` from its first byte until a `Return` or
    /// a failure, and returns the value that the `Return` reports, if it
    /// reports one. `alu` computes the result of an arithmetic instruction
    /// from its two operands.
    ///
    /// The chunk's name, code and lines stay as they are; its pool and the
    /// stack end as the run leaves them.
    pub fn interpret<F: Fn(BinaryOp, Value, Value) -> Value>(
        &mut self,
        chunk: &mut Chunk,
        alu: F,
    ) -> (result: Result<Option<Value>, InterpretError>)
        requires
            old(self).well_formed(),
            old(chunk).well_formed(),
            forall|op: BinaryOp, left: Value, right: Value| call_requires(alu, (op, left, right)),
            old(self)@.len() + old(chunk)@.code.len() <= isize::MAX,
            old(chunk)@.constants.len() + old(chunk)@.code.len() <= isize::MAX,
        ensures
            final(self).well_formed(),
            final(chunk).well_formed(),
            final(chunk)@.name == old(chunk)@.name,
            final(chunk)@.code == old(chunk)@.code,
            final(chunk)@.lines == old(chunk)@.lines,
            reaches(
                arithmetic_of(alu),
                old(chunk)@.code,
                old(self).machine(old(chunk)),
                0,
                Outcome { machine: final(self).machine(final(chunk)), result },
            ),
    {
        let ghost code = chunk@.code;
        let ghost start = self.machine(chunk);
        let ghost computes = arithmetic_of(alu);
        let len = chunk.len();
        let mut ip: usize = 0;
        loop
            invariant
                self.well_formed(),
                chunk.well_formed(),
                chunk@.name == old(chunk)@.name,
                chunk@.code == code,
                chunk@.lines == old(chunk)@.lines,
                code == old(chunk)@.code,
                start == old(self).machine(old(chunk)),
                computes == arithmetic_of(alu),
                len == code.len(),
                ip <= len,
                forall|op: BinaryOp, left: Value, right: Value|
                    call_requires(alu, (op, left, right)),
                self@.len() <= start.stack.len() + ip,
                chunk@.constants.len() <= start.constants.len() + ip,
                start.stack.len() + len <= isize::MAX,
                start.constants.len() + len <= isize::MAX,
                forall|outcome: Outcome|
                    reaches(computes, code, self.machine(chunk), ip as int, outcome) ==> reaches(
                        computes,
                        code,
                        start,
                        0,
                        outcome,
                    ),
            decreases len - ip,
        {
            let ghost here = self.machine(chunk);
            if ip >= len {
                assert(reaches(computes, code, here, ip as int, here.fail()));
                return Err(InterpretError::Runtime);
            }
            let byte = chunk.get_byte(ip);
            let op = match OpCode::try_from(byte) {
                Err(_) => {
                    assert(reaches(computes, code, here, ip as int, here.fail()));
                    return Err(InterpretError::Runtime);
                },
                Ok(op) => op,
            };
            assert(OpCode::decode(code[ip as int]) == Some(op));
            match op {
                OpCode::Return => {
                    let slot = match self.stack.last() {
                        None => {
                            assert(reaches(computes, code, here, ip as int, here.finish()));
                            return Ok(None);
                        },
                        Some(slot) => *slot,
                    };
                    if slot >= chunk.constants_len() {
                        assert(reaches(computes, code, here, ip as int, here.fail()));
                        return Err(InterpretError::Runtime);
                    }
                    let value = *chunk.get_constant(slot);
                    let _ = self.stack.pop();
                    assert(reaches(computes, code, here, ip as int, here.finish()));
                    return Ok(Some(value));
                },
                OpCode::LoadConstant => {
                    if ip + 1 >= len {
                        assert(reaches(computes, code, here, ip as int, here.fail()));
                        return Err(InterpretError::Runtime);
                    }
                    let index = chunk.get_byte(ip + 1);
                    self.stack.push(index as usize);
                    assert(self.machine(chunk) == here.load(index));
                    assert forall|outcome: Outcome|
                        reaches(
                            computes,
                            code,
                            self.machine(chunk),
                            ip + 2,
                            outcome,
                        ) implies reaches(computes, code, start, 0, outcome) by {
                        assert(reaches(computes, code, here, ip as int, outcome));
                    }
                    ip = ip + 2;
                },
                OpCode::Negate => {
                    let slot = match self.stack.last() {
                        None => {
                            assert(reaches(computes, code, here, ip as int, here.fail()));
                            return Err(InterpretError::Runtime);
                        },
                        Some(slot) => *slot,
                    };
                    if slot >= chunk.constants_len() {
                        assert(reaches(computes, code, here, ip as int, here.fail()));
                        return Err(InterpretError::Runtime);
                    }
                    let value = *chunk.get_constant(slot);
                    chunk.update_constant(slot, negate(value));
                    assert(self.machine(chunk) == here.negate());
                    assert forall|outcome: Outcome|
                        reaches(
                            computes,
                            code,
                            self.machine(chunk),
                            ip + 1,
                            outcome,
                        ) implies reaches(computes, code, start, 0, outcome) by {
                        assert(reaches(computes, code, here, ip as int, outcome));
                    }
                    ip = ip + 1;
                },
                _ => {
                    let operation = match op {
                        OpCode::Add => BinaryOp::Add,
                        OpCode::Subtract => BinaryOp::Subtract,
                        OpCode::Multiply => BinaryOp::Multiply,
                        _ => BinaryOp::Divide,
                    };
                    assert(binary_op(op) == Some(operation));
                    let depth = self.stack.len();
                    if depth < 2 {
                        assert(reaches(computes, code, here, ip as int, here.fail()));
                        return Err(InterpretError::Runtime);
                    }
                    let right_slot = *self.stack.get(depth - 1);
                    let left_slot = *self.stack.get(depth - 2);
                    let pool_len = chunk.constants_len();
                    if right_slot >= pool_len || left_slot >= pool_len {
                        assert(reaches(computes, code, here, ip as int, here.fail()));
                        return Err(InterpretError::Runtime);
                    }
                    let left = *chunk.get_constant(left_slot);
                    let right = *chunk.get_constant(right_slot);
                    let value = alu(operation, left, right);
                    let _ = self.stack.pop();
                    let _ = self.stack.pop();
                    let slot = chunk.add_constant(value);
                    self.stack.push(slot);
                    assert(self.machine(chunk) == here.combine(value));
                    assert forall|outcome: Outcome|
                        reaches(
                            computes,
                            code,
                            self.machine(chunk),
                            ip + 1,
                            outcome,
                        ) implies reaches(computes, code, start, 0, outcome) by {
                        assert(computes(operation, here.left(), here.right(), value));
                        assert(reaches(computes, code, here, ip as int, outcome));
                    }
                    ip = ip + 1;
                },
            }
        }
    }
}

} // verus!
