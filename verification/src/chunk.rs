//! Bytecode for the virtual machine: operation codes, chunks of code with
//! their constants and line numbers, decoding of one instruction, and the
//! machine's step through a chunk.
use vstd::prelude::*;

verus! {

/// The operations of the bytecode; each is one byte, numbered in order.
#[derive(Debug, PartialEq, Eq, Clone, Copy, Structural)]
pub enum OPCODE {
    Constant,
    Add,
    Subtract,
    Multiply,
    Divide,
    Negate,
    Return,
}

/// The byte of each operation.
pub open spec fn opcode_byte(op: OPCODE) -> u8 {
    match op {
        OPCODE::Constant => 0,
        OPCODE::Add => 1,
        OPCODE::Subtract => 2,
        OPCODE::Multiply => 3,
        OPCODE::Divide => 4,
        OPCODE::Negate => 5,
        OPCODE::Return => 6,
    }
}

/// The operation a byte stands for, if any.
pub open spec fn byte_opcode(b: u8) -> Option<OPCODE> {
    if b == 0 {
        Some(OPCODE::Constant)
    } else if b == 1 {
        Some(OPCODE::Add)
    } else if b == 2 {
        Some(OPCODE::Subtract)
    } else if b == 3 {
        Some(OPCODE::Multiply)
    } else if b == 4 {
        Some(OPCODE::Divide)
    } else if b == 5 {
        Some(OPCODE::Negate)
    } else if b == 6 {
        Some(OPCODE::Return)
    } else {
        None
    }
}

impl OPCODE {
    /// The operation of a byte; `None` for a byte that is none.
    pub fn from_u8(b: u8) -> (r: Option<OPCODE>)
        ensures
            r == byte_opcode(b),
    {
        match b {
            0 => Some(OPCODE::Constant),
            1 => Some(OPCODE::Add),
            2 => Some(OPCODE::Subtract),
            3 => Some(OPCODE::Multiply),
            4 => Some(OPCODE::Divide),
            5 => Some(OPCODE::Negate),
            6 => Some(OPCODE::Return),
            _ => None,
        }
    }
}

impl From<OPCODE> for u8 {
    fn from(op: OPCODE) -> (r: u8)
        ensures
            r == opcode_byte(op),
    {
        match op {
            OPCODE::Constant => 0,
            OPCODE::Add => 1,
            OPCODE::Subtract => 2,
            OPCODE::Multiply => 3,
            OPCODE::Divide => 4,
            OPCODE::Negate => 5,
            OPCODE::Return => 6,
        }
    }
}

impl vstd::std_specs::convert::FromSpecImpl<OPCODE> for u8 {
    open spec fn obeys_from_spec() -> bool {
        true
    }

    open spec fn from_spec(op: OPCODE) -> u8 {
        opcode_byte(op)
    }
}

/// Decoding a byte that encodes an operation gives that operation back.
pub proof fn lemma_opcode_roundtrip(op: OPCODE)
    ensures
        byte_opcode(opcode_byte(op)) == Some(op),
{
}

/// A chunk of bytecode: the code, the constants it refers to, and the
/// source line of each byte of code.
pub struct Chunk<V> {
    pub code: Vec<u8>,
    pub constants: Vec<V>,
    pub lines: Vec<u32>,
}

impl<V> Chunk<V> {
    /// Every byte of code has its line.
    pub open spec fn wf(&self) -> bool {
        self.code@.len() == self.lines@.len()
    }

    /// An empty chunk.
    pub fn new() -> (c: Self)
        ensures
            c.wf(),
            c.code@ == Seq::<u8>::empty(),
            c.constants@ == Seq::<V>::empty(),
            c.lines@ == Seq::<u32>::empty(),
    {
        Chunk { code: Vec::new(), constants: Vec::new(), lines: Vec::new() }
    }

    /// Appends a byte of code, from source line `line`.
    pub fn write_code(&mut self, v: u8, line: u32)
        ensures
            old(self).wf() ==> final(self).wf(),
            final(self).code@ == old(self).code@.push(v),
            final(self).lines@ == old(self).lines@.push(line),
            final(self).constants@ == old(self).constants@,
    {
        self.code.push(v);
        self.lines.push(line);
    }

    /// Appends a constant; the result is its index.
    pub fn add_constant(&mut self, v: V) -> (i: usize)
        requires
            old(self).constants@.len() < usize::MAX,
        ensures
            i == old(self).constants@.len(),
            final(self).constants@ == old(self).constants@.push(v),
            final(self).code@ == old(self).code@,
            final(self).lines@ == old(self).lines@,
    {
        self.constants.push(v);
        self.constants.len() - 1
    }
}

/// One decoded instruction.
#[derive(Debug, PartialEq, Eq, Clone, Copy, Structural)]
pub enum Instruction {
    /// Load the constant with this index.
    Constant(u8),
    Add,
    Subtract,
    Multiply,
    Divide,
    Negate,
    Return,
}

/// The instruction at `offset` and the offset after it; `None` when the
/// byte there is no operation or an operand is missing.
pub open spec fn decode_at(code: Seq<u8>, offset: int) -> Option<(Instruction, int)> {
    if !(0 <= offset < code.len()) {
        None
    } else {
        match byte_opcode(code[offset]) {
            None => None,
            Some(OPCODE::Constant) => if offset + 1 < code.len() {
                Some((Instruction::Constant(code[offset + 1]), offset + 2))
            } else {
                None
            },
            Some(OPCODE::Add) => Some((Instruction::Add, offset + 1)),
            Some(OPCODE::Subtract) => Some((Instruction::Subtract, offset + 1)),
            Some(OPCODE::Multiply) => Some((Instruction::Multiply, offset + 1)),
            Some(OPCODE::Divide) => Some((Instruction::Divide, offset + 1)),
            Some(OPCODE::Negate) => Some((Instruction::Negate, offset + 1)),
            Some(OPCODE::Return) => Some((Instruction::Return, offset + 1)),
        }
    }
}

/// Decoding reads the operation named by the byte at `offset`, numbered as
/// the opcodes are declared (`Constant` 0, `Add` 1, `Subtract` 2,
/// `Multiply` 3, `Divide` 4, `Negate` 5, `Return` 6): a one-byte operation
/// gives the instruction of the same name and the next offset; `Constant`
/// takes the following byte as its operand (and fails without one); any
/// other byte, or an offset outside the code, decodes to nothing.
pub proof fn lemma_decode_names_the_operation(code: Seq<u8>, offset: int)
    ensures
        !(0 <= offset < code.len()) ==> decode_at(code, offset) is None,
        0 <= offset < code.len() ==> {
            let b = code[offset];
            &&& b == 1 ==> decode_at(code, offset) == Some((Instruction::Add, offset + 1))
            &&& b == 2 ==> decode_at(code, offset) == Some((Instruction::Subtract, offset + 1))
            &&& b == 3 ==> decode_at(code, offset) == Some((Instruction::Multiply, offset + 1))
            &&& b == 4 ==> decode_at(code, offset) == Some((Instruction::Divide, offset + 1))
            &&& b == 5 ==> decode_at(code, offset) == Some((Instruction::Negate, offset + 1))
            &&& b == 6 ==> decode_at(code, offset) == Some((Instruction::Return, offset + 1))
            &&& b == 0 && offset + 1 < code.len() ==> decode_at(code, offset) == Some(
                (Instruction::Constant(code[offset + 1]), offset + 2),
            )
            &&& b == 0 && offset + 1 >= code.len() ==> decode_at(code, offset) is None
            &&& b > 6 ==> decode_at(code, offset) is None
        },
{
}

/// Every operation is written as the byte of its place in the declaration,
/// and a lone byte written for an operation other than `Constant` decodes
/// to the instruction of the same name.
pub proof fn lemma_written_operation_decodes(op: OPCODE)
    ensures
        op == OPCODE::Constant ==> opcode_byte(op) == 0,
        op == OPCODE::Add ==> opcode_byte(op) == 1 && decode_at(seq![opcode_byte(op)], 0) == Some((Instruction::Add, 1int)),
        op == OPCODE::Subtract ==> opcode_byte(op) == 2 && decode_at(seq![opcode_byte(op)], 0) == Some((Instruction::Subtract, 1int)),
        op == OPCODE::Multiply ==> opcode_byte(op) == 3 && decode_at(seq![opcode_byte(op)], 0) == Some((Instruction::Multiply, 1int)),
        op == OPCODE::Divide ==> opcode_byte(op) == 4 && decode_at(seq![opcode_byte(op)], 0) == Some((Instruction::Divide, 1int)),
        op == OPCODE::Negate ==> opcode_byte(op) == 5 && decode_at(seq![opcode_byte(op)], 0) == Some((Instruction::Negate, 1int)),
        op == OPCODE::Return ==> opcode_byte(op) == 6 && decode_at(seq![opcode_byte(op)], 0) == Some((Instruction::Return, 1int)),
{
    lemma_decode_names_the_operation(seq![opcode_byte(op)], 0);
}

/// Decodes the instruction at `offset`.
pub fn decode(code: &Vec<u8>, offset: usize) -> (r: Option<(Instruction, usize)>)
    ensures
        match r {
            Some((ins, next)) => decode_at(code@, offset as int) == Some((ins, next as int)),
            None => decode_at(code@, offset as int) is None,
        },
{
    if offset >= code.len() {
        return None;
    }
    match OPCODE::from_u8(code[offset]) {
        None => None,
        Some(OPCODE::Constant) => {
            if offset + 1 < code.len() {
                Some((Instruction::Constant(code[offset + 1]), offset + 2))
            } else {
                None
            }
        },
        Some(OPCODE::Add) => Some((Instruction::Add, offset + 1)),
        Some(OPCODE::Subtract) => Some((Instruction::Subtract, offset + 1)),
        Some(OPCODE::Multiply) => Some((Instruction::Multiply, offset + 1)),
        Some(OPCODE::Divide) => Some((Instruction::Divide, offset + 1)),
        Some(OPCODE::Negate) => Some((Instruction::Negate, offset + 1)),
        Some(OPCODE::Return) => Some((Instruction::Return, offset + 1)),
    }
}

/// What the disassembler shows of the instruction at `offset`: the line
/// (`None` when it is the line of the byte before), the instruction, and
/// where the next one starts.
pub struct Listing {
    pub offset: usize,
    pub line: Option<u32>,
    pub instruction: Instruction,
    pub next: usize,
}

/// Describes the instruction at `offset` for a listing of the chunk;
/// `None` when there is no instruction to decode there.
pub fn listing_at<V>(chunk: &Chunk<V>, offset: usize) -> (r: Option<Listing>)
    requires
        offset < chunk.lines@.len(),
    ensures
        match r {
            Some(l) => {
                &&& decode_at(chunk.code@, offset as int) == Some((l.instruction, l.next as int))
                &&& l.offset == offset
                &&& l.line == if offset > 0 && chunk.lines@[offset as int] == chunk.lines@[offset - 1] {
                    None::<u32>
                } else {
                    Some(chunk.lines@[offset as int])
                }
            },
            None => decode_at(chunk.code@, offset as int) is None,
        },
{
    let (instruction, next) = match decode(&chunk.code, offset) {
        Some(d) => d,
        None => return None,
    };
    let line = if offset > 0 && chunk.lines[offset] == chunk.lines[offset - 1] {
        None
    } else {
        Some(chunk.lines[offset])
    };
    Some(Listing { offset, line, instruction, next })
}

/// The errors that stop the machine.
#[derive(Debug, PartialEq, Eq, Clone, Copy, Structural)]
pub enum IError {
    CompileError,
    RuntimeError,
}

/// What one step of the machine asks for.
#[derive(Debug, PartialEq, Eq, Clone, Copy, Structural)]
pub enum Step {
    /// The chunk returned: the run is over.
    Return,
    /// Show the constant with this index, then go on.
    Constant(usize),
}

/// The virtual machine: where it is in the chunk it runs.
pub struct VM {
    ip: usize,
}

impl VM {
    pub fn new() -> (vm: Self)
        ensures
            vm.pos() == 0,
    {
        VM { ip: 0 }
    }

    /// The offset of the next instruction.
    pub closed spec fn pos(&self) -> nat {
        self.ip as nat
    }

    /// The offset of the next instruction.
    pub fn offset(&self) -> (r: usize)
        ensures
            r == self.pos(),
    {
        self.ip
    }

    /// Starts a run from the beginning of the chunk.
    pub fn reset(&mut self)
        ensures
            final(self).pos() == 0,
    {
        self.ip = 0;
    }

    /// Runs the instruction at the current offset. `Return` ends the run; a
    /// constant is to be shown; an arithmetic operation, which this machine
    /// does not run yet, is a runtime error; so is an instruction that cannot
    /// be decoded, or a constant index past the chunk's constants.
    pub fn step<V>(&mut self, chunk: &Chunk<V>) -> (r: Result<Step, IError>)
        ensures
            match decode_at(chunk.code@, old(self).pos() as int) {
                Some((Instruction::Return, next)) => r == Ok::<Step, IError>(Step::Return) && final(self).pos() == next,
                Some((Instruction::Constant(i), next)) => if (i as int) < chunk.constants@.len() {
                    r == Ok::<Step, IError>(Step::Constant(i as usize)) && final(self).pos() == next
                } else {
                    r == Err::<Step, IError>(IError::RuntimeError) && final(self).pos() == old(self).pos()
                },
                _ => r == Err::<Step, IError>(IError::RuntimeError) && final(self).pos() == old(self).pos(),
            },
    {
        match decode(&chunk.code, self.ip) {
            Some((Instruction::Return, next)) => {
                self.ip = next;
                Ok(Step::Return)
            },
            Some((Instruction::Constant(i), next)) => {
                if (i as usize) < chunk.constants.len() {
                    self.ip = next;
                    Ok(Step::Constant(i as usize))
                } else {
                    Err(IError::RuntimeError)
                }
            },
            _ => Err(IError::RuntimeError),
        }
    }
}

} // verus!
