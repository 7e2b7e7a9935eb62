//! A named unit of bytecode with its constant pool and line table, and its
//! disassembly.

use crate::list::List;
use crate::opcode::{invalid_opcode_message, OpCode, Value};
use crate::text::{
    decimal, left_justified, push_decimal_field, push_left_justified, right_justified, texts_of,
};
use vstd::prelude::*;

verus! {

/// What a [`Chunk`] holds.
pub struct ChunkView {
    /// The name, for diagnostics.
    pub name: Seq<char>,
    /// The instruction stream.
    pub code: Seq<u8>,
    /// The constant pool.
    pub constants: Seq<Value>,
    /// The source line of each byte of `code`.
    pub lines: Seq<usize>,
}

impl ChunkView {
    /// The chunk with `byte`, which comes from source line `line`, appended.
    pub open spec fn write(self, byte: u8, line: usize) -> ChunkView {
        ChunkView { code: self.code.push(byte), lines: self.lines.push(line), ..self }
    }

    /// The chunk with `value` in a new slot at the end of the pool.
    pub open spec fn add(self, value: Value) -> ChunkView {
        ChunkView { constants: self.constants.push(value), ..self }
    }

    /// The chunk with `value` in the pool's slot `index`.
    pub open spec fn update(self, index: int, value: Value) -> ChunkView {
        ChunkView { constants: self.constants.update(index, value), ..self }
    }
}

/// The number of bytes that the instruction at `offset` takes in a listing:
/// an instruction's width, or one byte for a byte that encodes none.
pub open spec fn step_width(code: Seq<u8>, offset: int) -> int {
    match OpCode::decode(code[offset]) {
        Some(op) => op.width(),
        None => 1,
    }
}

/// The offsets at which a listing that starts at `offset` finds an
/// instruction or an undecodable byte.
pub open spec fn instruction_offsets(code: Seq<u8>, offset: int) -> Seq<int>
    decreases code.len() + 1 - offset,
{
    if 0 <= offset < code.len() {
        seq![offset] + instruction_offsets(code, offset + step_width(code, offset))
    } else {
        Seq::empty()
    }
}

/// Whether every `LoadConstant` that a listing from `offset` finds has its
/// operand byte, and that byte is an index into a pool of `pool_len` slots.
pub open spec fn operands_resolve(code: Seq<u8>, pool_len: nat, offset: int) -> bool
    decreases code.len() + 1 - offset,
{
    if 0 <= offset < code.len() {
        &&& OpCode::decode(code[offset]) == Some(OpCode::LoadConstant) ==> offset + 1 < code.len()
            && code[offset + 1] < pool_len
        &&& operands_resolve(code, pool_len, offset + step_width(code, offset))
    } else {
        true
    }
}

/// The column that tells the source line of the byte at `offset`: the line
/// number, or a continuation marker where the byte before it comes from the
/// same line.
pub open spec fn line_column(lines: Seq<usize>, offset: int) -> Seq<char> {
    if offset > 0 && lines[offset] == lines[offset - 1] {
        seq![' ', ' ', ' ', '|', ' ']
    } else {
        right_justified(decimal(lines[offset] as nat), 4, ' ') + seq![' ']
    }
}

/// The line of a listing for what stands at `offset`. `shown` holds the
/// text of each constant of the pool.
pub open spec fn instruction_text(chunk: ChunkView, shown: Seq<Seq<char>>, offset: int) -> Seq<
    char,
> {
    match OpCode::decode(chunk.code[offset]) {
        None => invalid_opcode_message() + seq!['\n'],
        Some(op) => {
            let prefix = right_justified(decimal(offset as nat), 4, '0') + seq![' '] + line_column(
                chunk.lines,
                offset,
            );
            if op == OpCode::LoadConstant {
                let operand = chunk.code[offset + 1];
                prefix + left_justified(op.mnemonic(), 16) + seq![' '] + right_justified(
                    decimal(operand as nat),
                    4,
                    ' ',
                ) + seq![' ', '\''] + shown[operand as int] + seq!['\'', '\n']
            } else {
                prefix + op.mnemonic() + seq!['\n']
            }
        },
    }
}

/// The lines for the instructions at `offsets`, one after the other.
pub open spec fn listing(chunk: ChunkView, shown: Seq<Seq<char>>, offsets: Seq<int>) -> Seq<char>
    decreases offsets.len(),
{
    if offsets.len() == 0 {
        Seq::empty()
    } else {
        listing(chunk, shown, offsets.drop_last()) + instruction_text(
            chunk,
            shown,
            offsets.last(),
        )
    }
}

/// The header line of a disassembly.
pub open spec fn header(name: Seq<char>) -> Seq<char> {
    seq!['-', '-', ' '] + name + seq![' ', '-', '-', '\n']
}

/// The disassembly of `chunk`: a header with its name, then one line for
/// each instruction, from the first byte on.
pub open spec fn disassembly(chunk: ChunkView, shown: Seq<Seq<char>>) -> Seq<char> {
    header(chunk.name) + listing(chunk, shown, instruction_offsets(chunk.code, 0))
}

/// What `chunk` holds after each byte of `bytes` was written to it, in
/// order, with the source line `line`.
pub open spec fn written_all(chunk: ChunkView, bytes: Seq<u8>, line: usize) -> ChunkView
    decreases bytes.len(),
{
    if bytes.len() == 0 {
        chunk
    } else {
        written_all(chunk, bytes.drop_last(), line).write(bytes.last(), line)
    }
}

/// What `chunk` holds after each of `values` was added to its pool, in
/// order.
pub open spec fn added_all(chunk: ChunkView, values: Seq<Value>) -> ChunkView
    decreases values.len(),
{
    if values.len() == 0 {
        chunk
    } else {
        added_all(chunk, values.drop_last()).add(values.last())
    }
}

/// A byte that was written with a line is read back at the offset it was
/// written to, and a listing shows that line for it: as a number or, where
/// the byte before it comes from the same line, as a continuation marker.
pub proof fn lemma_written_byte(chunk: ChunkView, byte: u8, line: usize)
    requires
        chunk.lines.len() == chunk.code.len(),
    ensures
        ({
            let at = chunk.code.len() as int;
            let written = chunk.write(byte, line);
            &&& written.lines.len() == written.code.len()
            &&& written.code[at] == byte
            &&& written.lines[at] == line
            &&& at > 0 && chunk.lines[at - 1] == line ==> line_column(written.lines, at) == seq![
                ' ',
                ' ',
                ' ',
                '|',
                ' ',
            ]
            &&& !(at > 0 && chunk.lines[at - 1] == line) ==> line_column(written.lines, at)
                == right_justified(decimal(line as nat), 4, ' ') + seq![' ']
            &&& forall|i: int|
                0 <= i < at ==> written.code[i] == chunk.code[i] && written.lines[i]
                    == chunk.lines[i]
        }),
{
}

/// Every byte of a run that was written with one line is read back at its
/// offset, with that line, and what was there before stays.
pub proof fn lemma_written_all(chunk: ChunkView, bytes: Seq<u8>, line: usize)
    requires
        chunk.lines.len() == chunk.code.len(),
    ensures
        written_all(chunk, bytes, line).code == chunk.code + bytes,
        written_all(chunk, bytes, line).lines == chunk.lines + Seq::new(
            bytes.len(),
            |i: int| line,
        ),
        written_all(chunk, bytes, line).constants == chunk.constants,
        written_all(chunk, bytes, line).name == chunk.name,
        forall|i: int|
            0 <= i < bytes.len() ==> written_all(chunk, bytes, line).code[chunk.code.len() + i]
                == bytes[i] && written_all(chunk, bytes, line).lines[chunk.code.len() + i] == line,
    decreases bytes.len(),
{
    if bytes.len() == 0 {
        assert(chunk.code + bytes =~= chunk.code);
        assert(chunk.lines + Seq::new(bytes.len(), |i: int| line) =~= chunk.lines);
    } else {
        let shorter = bytes.drop_last();
        lemma_written_all(chunk, shorter, line);
        assert((chunk.code + shorter).push(bytes.last()) =~= chunk.code + bytes);
        assert((chunk.lines + Seq::new(shorter.len(), |i: int| line)).push(line) =~= chunk.lines
            + Seq::new(bytes.len(), |i: int| line));
    }
}

/// Constants get the indices 0, 1, 2, ... in the order in which they are
/// added: the value added as the `i`-th to a pool of `n` slots is found at
/// index `n + i`, and the slots that were there keep what they held.
pub proof fn lemma_added_all(chunk: ChunkView, values: Seq<Value>)
    ensures
        added_all(chunk, values).constants == chunk.constants + values,
        added_all(chunk, values).code == chunk.code,
        added_all(chunk, values).lines == chunk.lines,
        added_all(chunk, values).name == chunk.name,
        forall|i: int|
            0 <= i < values.len() ==> added_all(chunk, values).constants[chunk.constants.len() + i]
                == values[i],
    decreases values.len(),
{
    if values.len() == 0 {
        assert(chunk.constants + values =~= chunk.constants);
    } else {
        let shorter = values.drop_last();
        lemma_added_all(chunk, shorter);
        assert((chunk.constants + shorter).push(values.last()) =~= chunk.constants + values);
    }
}

/// Whether `code` starts with `count` pairs of a `LoadConstant` with its
/// operand and a `Return`.
pub open spec fn holds_pairs(code: Seq<u8>, count: int) -> bool {
    &&& code.len() >= 3 * count
    &&& forall|k: int|
        0 <= k < 3 * count ==> (k % 3 == 0 ==> #[trigger] code[k]
            == OpCode::LoadConstant.encoding()) && (k % 3 == 2 ==> code[k]
            == OpCode::Return.encoding())
}

/// Where the `index`-th line of a listing of such pairs stands: the
/// `LoadConstant` of the `i`-th pair at `3 * i`, its `Return` at `3 * i + 2`.
pub open spec fn pair_line_offset(index: int) -> int {
    3 * (index / 2) + 2 * (index % 2)
}

/// The number of bytes that the `index`-th line of a listing of `count` such
/// pairs covers.
pub open spec fn pair_line_width(index: int, count: int) -> int {
    if index % 2 == 0 && index < 2 * count {
        2
    } else {
        1
    }
}

/// The offsets of the instructions of the pairs from the `from`-th up to the
/// `count`-th.
pub open spec fn pair_offsets(from: int, count: int) -> Seq<int>
    decreases count - from,
{
    if from >= count {
        Seq::empty()
    } else {
        seq![3 * from, 3 * from + 2] + pair_offsets(from + 1, count)
    }
}

/// Where the instructions of a run of pairs stand.
pub proof fn lemma_pair_offsets(from: int, count: int)
    requires
        0 <= from <= count,
    ensures
        pair_offsets(from, count).len() == 2 * (count - from),
        forall|j: int|
            0 <= j < 2 * (count - from) ==> #[trigger] pair_offsets(from, count)[j] == 3 * from
                + pair_line_offset(j),
    decreases count - from,
{
    if from < count {
        lemma_pair_offsets(from + 1, count);
        let rest = pair_offsets(from + 1, count);
        let all = pair_offsets(from, count);
        assert forall|j: int| 0 <= j < 2 * (count - from) implies #[trigger] all[j] == 3 * from
            + pair_line_offset(j) by {
            if j >= 2 {
                assert(all[j] == rest[j - 2]);
            }
        }
    }
}

/// A listing of code that starts with pairs takes two steps for each pair.
pub proof fn lemma_pairs_prefix(code: Seq<u8>, from: int, count: int)
    requires
        holds_pairs(code, count),
        0 <= from <= count,
    ensures
        instruction_offsets(code, 3 * from) == pair_offsets(from, count) + instruction_offsets(
            code,
            3 * count,
        ),
    decreases count - from,
{
    if from < count {
        lemma_pairs_prefix(code, from + 1, count);
        let at = 3 * from;
        assert(code[at] == OpCode::LoadConstant.encoding());
        assert(code[at + 2] == OpCode::Return.encoding());
        assert(step_width(code, at) == 2);
        assert(step_width(code, at + 2) == 1);
        assert(instruction_offsets(code, at) == seq![at] + instruction_offsets(code, at + 2));
        assert(instruction_offsets(code, at + 2) == seq![at + 2] + instruction_offsets(
            code,
            at + 3,
        ));
        assert(instruction_offsets(code, at) =~= pair_offsets(from, count) + instruction_offsets(
            code,
            3 * count,
        ));
    } else {
        assert(pair_offsets(from, count) + instruction_offsets(code, 3 * count)
            =~= instruction_offsets(code, 3 * count));
    }
}

/// The listing of `count` pairs of a `LoadConstant` and a `Return`, with one
/// more `Return` behind them, has `2 * count + 1` lines: for the `i`-th pair
/// a two-byte instruction at offset `3 * i` and a one-byte `Return` at
/// `3 * i + 2`, and at the end the last `Return` at `3 * count`.
pub proof fn lemma_pairs_listing(code: Seq<u8>, count: int)
    requires
        0 <= count,
        holds_pairs(code, count),
        code.len() == 3 * count + 1,
        code[3 * count] == OpCode::Return.encoding(),
    ensures
        instruction_offsets(code, 0).len() == 2 * count + 1,
        forall|j: int|
            0 <= j <= 2 * count ==> #[trigger] instruction_offsets(code, 0)[j] == pair_line_offset(
                j,
            ) && step_width(code, pair_line_offset(j)) == pair_line_width(j, count),
        instruction_offsets(code, 0)[2 * count] == 3 * count,
{
    lemma_pairs_prefix(code, 0, count);
    lemma_pair_offsets(0, count);
    let last = 3 * count;
    let pairs = pair_offsets(0, count);
    assert(instruction_offsets(code, last + 1) =~= Seq::<int>::empty());
    assert(instruction_offsets(code, last) =~= seq![last]);
    assert forall|j: int| 0 <= j <= 2 * count implies #[trigger] instruction_offsets(code, 0)[j]
        == pair_line_offset(j) && step_width(code, pair_line_offset(j)) == pair_line_width(
        j,
        count,
    ) by {
        if j < 2 * count {
            assert(instruction_offsets(code, 0)[j] == pairs[j]);
            let k = pair_line_offset(j);
            assert(code[k] == if j % 2 == 0 {
                OpCode::LoadConstant.encoding()
            } else {
                OpCode::Return.encoding()
            });
        }
    }
}

/// The listing of `count` pairs of a `LoadConstant` and a `Return` and
/// nothing else has exactly the two lines of each pair.
pub proof fn lemma_pairs_only_listing(code: Seq<u8>, count: int)
    requires
        0 <= count,
        holds_pairs(code, count),
        code.len() == 3 * count,
    ensures
        instruction_offsets(code, 0).len() == 2 * count,
        forall|j: int|
            0 <= j < 2 * count ==> #[trigger] instruction_offsets(code, 0)[j] == pair_line_offset(
                j,
            ),
{
    lemma_pairs_prefix(code, 0, count);
    lemma_pair_offsets(0, count);
    assert(instruction_offsets(code, 3 * count) =~= Seq::<int>::empty());
    assert(instruction_offsets(code, 0) =~= pair_offsets(0, count));
}

/// A named sequence of instructions with the constants they refer to and
/// the source line of every byte.
pub struct Chunk {
    name: String,
    bytecode: List<u8>,
    constants: List<Value>,
    lines: List<usize>,
}

impl View for Chunk {
    type V = ChunkView;

    closed spec fn view(&self) -> ChunkView {
        ChunkView {
            name: self.name@,
            code: self.bytecode@,
            constants: self.constants@,
            lines: self.lines@,
        }
    }
}

impl Chunk {
    /// The chunk's invariant: its buffers are sound and every byte has its
    /// line.
    pub closed spec fn well_formed(&self) -> bool {
        &&& self.bytecode.well_formed()
        &&& self.constants.well_formed()
        &&& self.lines.well_formed()
        &&& self.lines@.len() == self.bytecode@.len()
    }

    /// A well-formed chunk has one line for each byte.
    pub proof fn lemma_line_per_byte(&self)
        requires
            self.well_formed(),
        ensures
            self@.lines.len() == self@.code.len(),
    {
    }

    /// An empty chunk called `name`.
    pub fn new(name: &str) -> (chunk: Chunk)
        ensures
            chunk.well_formed(),
            chunk@ == (ChunkView {
                name: name@,
                code: Seq::empty(),
                constants: Seq::empty(),
                lines: Seq::empty(),
            }),
    {
        broadcast use vstd::layout::layout_of_primitives;

        Chunk {
            name: name.to_owned(),
            bytecode: List::new(),
            constants: List::new(),
            lines: List::new(),
        }
    }

    /// Appends `byte`, which comes from source line `line`.
    pub fn write_byte(&mut self, byte: u8, line: usize)
        requires
            old(self).well_formed(),
            old(self)@.code.len() <= isize::MAX,
        ensures
            final(self).well_formed(),
            final(self)@ == old(self)@.write(byte, line),
    {
        self.bytecode.push(byte);
        self.lines.push(line);
    }

    /// Puts `value` in a new slot of the pool and returns the slot's index.
    /// Equal values get slots of their own.
    pub fn add_constant(&mut self, value: Value) -> (index: usize)
        requires
            old(self).well_formed(),
            old(self)@.constants.len() <= isize::MAX,
        ensures
            final(self).well_formed(),
            final(self)@ == old(self)@.add(value),
            index == old(self)@.constants.len(),
    {
        self.constants.push(value);
        self.constants.len() - 1
    }

    /// The number of bytes written.
    pub fn len(&self) -> (n: usize)
        ensures
            n == self@.code.len(),
    {
        self.bytecode.len()
    }

    /// The number of slots in the pool.
    pub fn constants_len(&self) -> (n: usize)
        ensures
            n == self@.constants.len(),
    {
        self.constants.len()
    }

    /// The byte at `offset`.
    pub fn get_byte(&self, offset: usize) -> (byte: u8)
        requires
            offset < self@.code.len(),
        ensures
            byte == self@.code[offset as int],
    {
        *self.bytecode.get(offset)
    }

    /// The source line of the byte at `offset`.
    pub fn get_line(&self, offset: usize) -> (line: usize)
        requires
            offset < self@.lines.len(),
        ensures
            line == self@.lines[offset as int],
    {
        *self.lines.get(offset)
    }

    /// The constant in slot `index`.
    pub fn get_constant(&self, index: usize) -> (value: &Value)
        requires
            index < self@.constants.len(),
        ensures
            *value == self@.constants[index as int],
    {
        self.constants.get(index)
    }

    /// Overwrites the constant in slot `index`.
    pub fn update_constant(&mut self, index: usize, value: Value)
        requires
            old(self).well_formed(),
            index < old(self)@.constants.len(),
        ensures
            final(self).well_formed(),
            final(self)@ == old(self)@.update(index as int, value),
    {
        self.constants.set(index, value);
    }

    /// Whether the chunk can be disassembled: every `LoadConstant` in its
    /// listing has an operand byte that is an index into the pool.
    pub fn can_disassemble(&self) -> (ok: bool)
        ensures
            ok == operands_resolve(self@.code, self@.constants.len(), 0),
    {
        let len = self.bytecode.len();
        let pool_len = self.constants.len();
        let mut offset: usize = 0;
        while offset < len
            invariant
                offset <= len,
                len == self@.code.len(),
                pool_len == self@.constants.len(),
                operands_resolve(self@.code, pool_len as nat, 0) == operands_resolve(
                    self@.code,
                    pool_len as nat,
                    offset as int,
                ),
            decreases len - offset,
        {
            let byte = *self.bytecode.get(offset);
            if byte == OpCode::LoadConstant.to_byte() {
                if offset + 1 >= len {
                    return false;
                }
                let operand = *self.bytecode.get(offset + 1);
                if operand as usize >= pool_len {
                    return false;
                }
                offset = offset + 2;
            } else {
                offset = offset + 1;
            }
        }
        true
    }

    /// Appends the column that tells the source line of the byte at
    /// `offset`.
    fn push_line_column(&self, out: &mut String, offset: usize)
        requires
            offset < self@.lines.len(),
        ensures
            final(out)@ == old(out)@ + line_column(self@.lines, offset as int),
    {
        proof {
            reveal_strlit(" ");
            reveal_strlit("   | ");
        }
        let line = *self.lines.get(offset);
        if offset > 0 && line == *self.lines.get(offset - 1) {
            out.append("   | ");
            assert(final(out)@ =~= old(out)@ + line_column(self@.lines, offset as int));
        } else {
            push_decimal_field(out, line, 4, " ");
            out.append(" ");
            assert(final(out)@ =~= old(out)@ + line_column(self@.lines, offset as int));
        }
    }

    /// Appends what follows the line column for a `LoadConstant` whose
    /// operand is `operand`.
    fn push_load_constant(out: &mut String, operand: u8, shown: &str)
        ensures
            final(out)@ == old(out)@ + left_justified(OpCode::LoadConstant.mnemonic(), 16)
                + seq![' '] + right_justified(decimal(operand as nat), 4, ' ') + seq![' ', '\'']
                + shown@ + seq!['\'', '\n'],
    {
        proof {
            reveal_strlit(" ");
            reveal_strlit(" '");
            reveal_strlit("'\n");
        }
        push_left_justified(out, OpCode::LoadConstant.name(), 16);
        out.append(" ");
        push_decimal_field(out, operand as usize, 4, " ");
        out.append(" '");
        out.append(shown);
        out.append("'\n");
        assert(final(out)@ =~= old(out)@ + left_justified(OpCode::LoadConstant.mnemonic(), 16)
            + seq![' '] + right_justified(decimal(operand as nat), 4, ' ') + seq![' ', '\'']
            + shown@ + seq!['\'', '\n']);
    }

    /// Appends the line of the listing for what stands at `offset`, and
    /// returns how many bytes it covers.
    fn push_instruction(&self, out: &mut String, shown: &Vec<String>, offset: usize) -> (width:
        usize)
        requires
            self.well_formed(),
            offset < self@.code.len(),
            OpCode::decode(self@.code[offset as int]) == Some(OpCode::LoadConstant) ==> offset + 1
                < self@.code.len() && self@.code[offset + 1] < shown@.len(),
        ensures
            final(out)@ == old(out)@ + instruction_text(self@, texts_of(shown@), offset as int),
            width == step_width(self@.code, offset as int),
    {
        let byte = *self.bytecode.get(offset);
        match OpCode::try_from(byte) {
            Err(message) => {
                proof {
                    reveal_strlit("\n");
                }
                out.append(message);
                out.append("\n");
                assert(final(out)@ =~= old(out)@ + (invalid_opcode_message() + seq!['\n']));
                1
            },
            Ok(op) => {
                assert(OpCode::decode(byte) == Some(op));
                proof {
                    reveal_strlit("0");
                    reveal_strlit(" ");
                    reveal_strlit("\n");
                }
                push_decimal_field(out, offset, 4, "0");
                out.append(" ");
                self.push_line_column(out, offset);
                let ghost prefix = right_justified(decimal(offset as nat), 4, '0') + seq![' ']
                    + line_column(self@.lines, offset as int);
                assert(out@ =~= old(out)@ + prefix);
                match op {
                    OpCode::LoadConstant => {
                        proof {
                            self.bytecode.lemma_len_fits();
                        }
                        let operand = *self.bytecode.get(offset + 1);
                        let ghost text = shown@[operand as int]@;
                        assert(texts_of(shown@)[operand as int] == text);
                        Self::push_load_constant(out, operand, shown[operand as usize].as_str());
                        assert(final(out)@ =~= old(out)@ + (prefix + left_justified(
                            op.mnemonic(),
                            16,
                        ) + seq![' '] + right_justified(decimal(operand as nat), 4, ' ') + seq![
                            ' ',
                            '\'',
                        ] + text + seq!['\'', '\n']));
                        2
                    },
                    _ => {
                        out.append(op.name());
                        out.append("\n");
                        assert(final(out)@ =~= old(out)@ + (prefix + op.mnemonic() + seq!['\n']));
                        1
                    },
                }
            },
        }
    }

    /// The disassembly of the chunk. `shown` holds, for each slot of the
    /// pool, the text that stands for its constant.
    pub fn disassemble(&self, shown: &Vec<String>) -> (text: String)
        requires
            self.well_formed(),
            shown@.len() == self@.constants.len(),
            operands_resolve(self@.code, self@.constants.len(), 0),
        ensures
            text@ == disassembly(self@, texts_of(shown@)),
    {
        let mut out = String::new();
        proof {
            reveal_strlit("-- ");
            reveal_strlit(" --\n");
        }
        out.append("-- ");
        out.append(self.name.as_str());
        out.append(" --\n");
        assert(out@ =~= header(self@.name));
        let len = self.bytecode.len();
        let mut offset: usize = 0;
        let ghost mut visited: Seq<int> = Seq::empty();
        while offset < len
            invariant
                self.well_formed(),
                offset <= len,
                len == self@.code.len(),
                shown@.len() == self@.constants.len(),
                operands_resolve(self@.code, self@.constants.len(), offset as int),
                visited + instruction_offsets(self@.code, offset as int) == instruction_offsets(
                    self@.code,
                    0,
                ),
                out@ == header(self@.name) + listing(self@, texts_of(shown@), visited),
            decreases len - offset,
        {
            let width = self.push_instruction(&mut out, shown, offset);
            proof {
                let chunk = self@;
                let texts = texts_of(shown@);
                let longer = visited.push(offset as int);
                assert(longer.drop_last() =~= visited);
                assert(longer + instruction_offsets(chunk.code, offset + width) =~= visited
                    + instruction_offsets(chunk.code, offset as int));
                assert(listing(chunk, texts, longer) == listing(chunk, texts, visited)
                    + instruction_text(chunk, texts, offset as int));
                assert(out@ =~= header(chunk.name) + listing(chunk, texts, longer));
                visited = longer;
            }
            offset = offset + width;
        }
        assert(visited =~= instruction_offsets(self@.code, 0));
        out
    }
}

} // verus!
