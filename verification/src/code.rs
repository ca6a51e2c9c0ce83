//! The instruction set: the opcode catalog, the packing of an opcode and its
//! operands into bytes, the unpacking of those bytes, and the disassembler.

use vstd::prelude::*;
use vstd::slice::slice_subrange;
use vstd::string::*;

verus! {

/// A stream of encoded instructions.
pub type Instructions = Vec<u8>;

/// The numeric argument of an instruction.
pub type Operand = usize;

/// The largest value that fits in an operand of two bytes.
pub const MAX_OPERAND: usize = 0xFFFF;

/// The operations of the virtual machine. An opcode is one byte in a
/// stream; `Constant` and the two jumps are followed by one operand of two
/// bytes, the others by none.
#[derive(PartialEq, Eq, Structural, Hash, Copy, Clone, Debug)]
pub enum OpCode {
    /// Push a constant; the operand is its index in the constant pool.
    Constant,
    /// Pop two values and push their sum.
    Add,
    /// Discard the top of the stack.
    Pop,
    /// Pop two values and push their difference.
    Sub,
    /// Pop two values and push their product.
    Mul,
    /// Pop two values and push their quotient.
    Div,
    /// Push the boolean `true`.
    True,
    /// Push the boolean `false`.
    False,
    /// Pop two values and push whether they are equal.
    Equal,
    /// Pop two values and push whether they differ.
    NotEqual,
    /// Pop two values and push whether the first is greater than the second.
    GreaterThan,
    /// Negate the top of the stack.
    Minus,
    /// Logical not of the top of the stack.
    Bang,
    /// Pop the condition and jump to the operand, a byte offset, if it is not truthy.
    JumpNotTruthy,
    /// Jump to the operand, a byte offset.
    Jump,
}

/// Why a byte stream could not be decoded.
#[derive(PartialEq, Eq, Structural, Copy, Clone, Debug)]
pub enum DecodeError {
    /// The stream ends before the instruction does.
    Truncated,
    /// The tag byte names no opcode.
    UnknownOpcode(u8),
    /// An operand width other than two bytes was asked for.
    UnsupportedWidth(u8),
}

/// One decoded instruction: its opcode, its operands and the bytes it occupies.
pub ghost struct Decoded {
    pub opcode: OpCode,
    pub operands: Seq<usize>,
    pub length: nat,
}

/// One line of a disassembly: where the instruction starts and what it is.
pub ghost struct Line {
    pub offset: nat,
    pub opcode: OpCode,
    pub operands: Seq<usize>,
}

/// The two bytes of an operand, most significant first.
pub open spec fn operand_bytes(value: usize) -> Seq<u8> {
    seq![(value / 256) as u8, (value % 256) as u8]
}

/// The value of the two bytes of `bytes` that start at `at`, read big-endian.
pub open spec fn operand_value(bytes: Seq<u8>, at: int) -> usize {
    (bytes[at] as usize * 256 + bytes[at + 1] as usize) as usize
}

/// The operands one after the other, each as its two bytes.
pub open spec fn encode_operands(operands: Seq<usize>) -> Seq<u8>
    decreases operands.len(),
{
    if operands.len() == 0 {
        Seq::empty()
    } else {
        encode_operands(operands.drop_last()) + operand_bytes(operands.last())
    }
}

/// The encoding of an instruction: the tag byte, then the operands.
pub open spec fn encode(opcode: OpCode, operands: Seq<usize>) -> Seq<u8> {
    seq![opcode.tag()] + encode_operands(operands)
}

/// The sum of the operand widths.
pub open spec fn total_width(widths: Seq<u8>) -> nat
    decreases widths.len(),
{
    if widths.len() == 0 {
        0
    } else {
        total_width(widths.drop_last()) + widths.last() as nat
    }
}

/// Reads one operand for each width from `ins`, which starts at the tag byte
/// of an instruction. Gives the operands and the number of bytes that the
/// instruction occupies, the tag byte included.
pub open spec fn decode_operands(widths: Seq<u8>, ins: Seq<u8>) -> Result<
    (Seq<usize>, nat),
    DecodeError,
>
    decreases widths.len(),
{
    if widths.len() == 0 {
        if ins.len() == 0 {
            Err(DecodeError::Truncated)
        } else {
            Ok((Seq::empty(), 1nat))
        }
    } else {
        match decode_operands(widths.drop_last(), ins) {
            Err(e) => Err(e),
            Ok((operands, offset)) => {
                if widths.last() != 2 {
                    Err(DecodeError::UnsupportedWidth(widths.last()))
                } else if offset + 2 > ins.len() {
                    Err(DecodeError::Truncated)
                } else {
                    Ok((operands.push(operand_value(ins, offset as int)), offset + 2))
                }
            },
        }
    }
}

/// Decodes the instruction at the head of `ins`.
pub open spec fn decode(ins: Seq<u8>) -> Result<Decoded, DecodeError> {
    if ins.len() == 0 {
        Err(DecodeError::Truncated)
    } else {
        match OpCode::from_tag(ins[0]) {
            None => Err(DecodeError::UnknownOpcode(ins[0])),
            Some(opcode) => match decode_operands(opcode.widths(), ins) {
                Err(e) => Err(e),
                Ok((operands, length)) => Ok(Decoded { opcode, operands, length }),
            },
        }
    }
}

/// `lines` in front of what `rest` holds, or the error of `rest`.
pub open spec fn prepend_lines(lines: Seq<Line>, rest: Result<Seq<Line>, DecodeError>) -> Result<
    Seq<Line>,
    DecodeError,
> {
    match rest {
        Ok(more) => Ok(lines + more),
        Err(e) => Err(e),
    }
}

/// Decodes `ins` from the offset `at` to its end, one instruction after the
/// other, each starting where the one before it ended.
pub open spec fn disassemble_from(ins: Seq<u8>, at: nat) -> Result<Seq<Line>, DecodeError>
    decreases ins.len() - at,
{
    if at >= ins.len() {
        Ok(Seq::empty())
    } else {
        match decode(ins.skip(at as int)) {
            Err(e) => Err(e),
            Ok(d) => {
                proof {
                    lemma_decoded_length(ins.skip(at as int));
                }
                prepend_lines(
                    seq![Line { offset: at, opcode: d.opcode, operands: d.operands }],
                    disassemble_from(ins, at + d.length),
                )
            },
        }
    }
}

/// The listing of a whole instruction stream.
pub open spec fn disassemble(ins: Seq<u8>) -> Result<Seq<Line>, DecodeError> {
    disassemble_from(ins, 0)
}

/// The character of a decimal digit.
pub open spec fn digit_char(d: nat) -> char {
    seq!['0', '1', '2', '3', '4', '5', '6', '7', '8', '9'][d as int]
}

/// The decimal numeral of `n`, without leading zeros.
pub open spec fn decimal(n: nat) -> Seq<char>
    decreases n,
{
    if n < 10 {
        seq![digit_char(n)]
    } else {
        decimal(n / 10).push(digit_char(n % 10))
    }
}

/// The decimal numeral of `n`, filled with zeros on the left to four digits.
pub open spec fn padded_decimal(n: nat) -> Seq<char> {
    if n < 10 {
        seq!['0', '0', '0'] + decimal(n)
    } else if n < 100 {
        seq!['0', '0'] + decimal(n)
    } else if n < 1000 {
        seq!['0'] + decimal(n)
    } else {
        decimal(n)
    }
}

/// The numerals of the operands, separated by a comma and a space.
pub open spec fn operand_list(operands: Seq<usize>) -> Seq<char>
    decreases operands.len(),
{
    if operands.len() == 0 {
        Seq::empty()
    } else if operands.len() == 1 {
        decimal(operands[0] as nat)
    } else {
        operand_list(operands.drop_last()) + seq![',', ' '] + decimal(operands.last() as nat)
    }
}

/// The text of one line: the offset in four digits, the opcode's name and
/// the operands in square brackets, closed by a line feed.
pub open spec fn line_text(line: Line) -> Seq<char> {
    padded_decimal(line.offset) + " opcode: "@ + line.opcode.mnemonic() + seq![' ', '[']
        + operand_list(line.operands) + seq![']', '\n']
}

/// The text of a listing, line after line.
pub open spec fn render(lines: Seq<Line>) -> Seq<char>
    decreases lines.len(),
{
    if lines.len() == 0 {
        Seq::empty()
    } else {
        render(lines.drop_last()) + line_text(lines.last())
    }
}

impl OpCode {
    /// The byte that stands for this opcode in a stream.
    pub open spec fn tag(self) -> u8 {
        match self {
            OpCode::Constant => 0,
            OpCode::Add => 1,
            OpCode::Pop => 2,
            OpCode::Sub => 3,
            OpCode::Mul => 4,
            OpCode::Div => 5,
            OpCode::True => 6,
            OpCode::False => 7,
            OpCode::Equal => 8,
            OpCode::NotEqual => 9,
            OpCode::GreaterThan => 10,
            OpCode::Minus => 11,
            OpCode::Bang => 12,
            OpCode::JumpNotTruthy => 13,
            OpCode::Jump => 14,
        }
    }

    /// The opcode that a tag byte stands for, if any.
    pub open spec fn from_tag(byte: u8) -> Option<OpCode> {
        if byte == 0 {
            Some(OpCode::Constant)
        } else if byte == 1 {
            Some(OpCode::Add)
        } else if byte == 2 {
            Some(OpCode::Pop)
        } else if byte == 3 {
            Some(OpCode::Sub)
        } else if byte == 4 {
            Some(OpCode::Mul)
        } else if byte == 5 {
            Some(OpCode::Div)
        } else if byte == 6 {
            Some(OpCode::True)
        } else if byte == 7 {
            Some(OpCode::False)
        } else if byte == 8 {
            Some(OpCode::Equal)
        } else if byte == 9 {
            Some(OpCode::NotEqual)
        } else if byte == 10 {
            Some(OpCode::GreaterThan)
        } else if byte == 11 {
            Some(OpCode::Minus)
        } else if byte == 12 {
            Some(OpCode::Bang)
        } else if byte == 13 {
            Some(OpCode::JumpNotTruthy)
        } else if byte == 14 {
            Some(OpCode::Jump)
        } else {
            None
        }
    }

    /// The width in bytes of each operand, in order.
    pub open spec fn widths(self) -> Seq<u8> {
        match self {
            OpCode::Constant | OpCode::JumpNotTruthy | OpCode::Jump => seq![2u8],
            _ => Seq::empty(),
        }
    }

    /// The number of bytes that an instruction with this opcode occupies.
    pub open spec fn encoded_len(self) -> nat {
        1 + total_width(self.widths())
    }

    /// Whether `operands` has one value for each declared width, each
    /// small enough for its width.
    pub open spec fn accepts(self, operands: Seq<usize>) -> bool {
        &&& operands.len() == self.widths().len()
        &&& forall|i: int| 0 <= i < self.widths().len() ==> #[trigger] self.widths()[i] == 2
        &&& forall|i: int| 0 <= i < operands.len() ==> #[trigger] operands[i] <= MAX_OPERAND
    }

    /// The opcode's name as a listing shows it.
    pub open spec fn mnemonic(self) -> Seq<char> {
        match self {
            OpCode::Constant => "Constant"@,
            OpCode::Add => "Add"@,
            OpCode::Pop => "Pop"@,
            OpCode::Sub => "Sub"@,
            OpCode::Mul => "Mul"@,
            OpCode::Div => "Div"@,
            OpCode::True => "True"@,
            OpCode::False => "False"@,
            OpCode::Equal => "Equal"@,
            OpCode::NotEqual => "NotEqual"@,
            OpCode::GreaterThan => "GreaterThan"@,
            OpCode::Minus => "Minus"@,
            OpCode::Bang => "Bang"@,
            OpCode::JumpNotTruthy => "JumpNotTruthy"@,
            OpCode::Jump => "Jump"@,
        }
    }

    pub fn as_byte(&self) -> (byte: u8)
        ensures
            byte == self.tag(),
            OpCode::from_tag(byte) == Some(*self),
    {
        match self {
            OpCode::Constant => 0,
            OpCode::Add => 1,
            OpCode::Pop => 2,
            OpCode::Sub => 3,
            OpCode::Mul => 4,
            OpCode::Div => 5,
            OpCode::True => 6,
            OpCode::False => 7,
            OpCode::Equal => 8,
            OpCode::NotEqual => 9,
            OpCode::GreaterThan => 10,
            OpCode::Minus => 11,
            OpCode::Bang => 12,
            OpCode::JumpNotTruthy => 13,
            OpCode::Jump => 14,
        }
    }

    /// The checked way back from a byte: `None` for a byte that is no tag.
    pub fn from_byte(byte: u8) -> (opcode: Option<OpCode>)
        ensures
            opcode == OpCode::from_tag(byte),
            opcode matches Some(oc) ==> oc.tag() == byte,
    {
        match byte {
            0 => Some(OpCode::Constant),
            1 => Some(OpCode::Add),
            2 => Some(OpCode::Pop),
            3 => Some(OpCode::Sub),
            4 => Some(OpCode::Mul),
            5 => Some(OpCode::Div),
            6 => Some(OpCode::True),
            7 => Some(OpCode::False),
            8 => Some(OpCode::Equal),
            9 => Some(OpCode::NotEqual),
            10 => Some(OpCode::GreaterThan),
            11 => Some(OpCode::Minus),
            12 => Some(OpCode::Bang),
            13 => Some(OpCode::JumpNotTruthy),
            14 => Some(OpCode::Jump),
            _ => None,
        }
    }

    pub fn definition(&self) -> (op_width: Vec<u8>)
        ensures
            op_width@ == self.widths(),
    {
        match self {
            OpCode::Constant | OpCode::JumpNotTruthy | OpCode::Jump => {
                let mut op_width: Vec<u8> = Vec::new();
                op_width.push(2);
                assert(op_width@ =~= seq![2u8]);
                op_width
            },
            _ => Vec::new(),
        }
    }

    pub fn name(&self) -> (name: &'static str)
        ensures
            name@ == self.mnemonic(),
    {
        match self {
            OpCode::Constant => "Constant",
            OpCode::Add => "Add",
            OpCode::Pop => "Pop",
            OpCode::Sub => "Sub",
            OpCode::Mul => "Mul",
            OpCode::Div => "Div",
            OpCode::True => "True",
            OpCode::False => "False",
            OpCode::Equal => "Equal",
            OpCode::NotEqual => "NotEqual",
            OpCode::GreaterThan => "GreaterThan",
            OpCode::Minus => "Minus",
            OpCode::Bang => "Bang",
            OpCode::JumpNotTruthy => "JumpNotTruthy",
            OpCode::Jump => "Jump",
        }
    }

    /// Tells whether `make` takes these operands.
    pub fn check_operands(&self, operands: &[Operand]) -> (ok: bool)
        ensures
            ok == self.accepts(operands@),
    {
        let op_width = self.definition();
        if operands.len() != op_width.len() {
            return false;
        }
        let mut i: usize = 0;
        while i < operands.len()
            invariant
                i <= operands.len(),
                operands.len() == op_width.len(),
                op_width@ == self.widths(),
                forall|j: int| 0 <= j < i ==> #[trigger] self.widths()[j] == 2,
                forall|j: int| 0 <= j < i ==> #[trigger] operands@[j] <= MAX_OPERAND,
            decreases operands.len() - i,
        {
            if op_width[i] != 2 || operands[i] > MAX_OPERAND {
                return false;
            }
            i = i + 1;
        }
        true
    }

    /// Packs the opcode and its operands into bytes: the tag, then each
    /// operand big-endian at its declared width.
    pub fn make(&self, operands: &[Operand]) -> (instr: Instructions)
        requires
            self.accepts(operands@),
        ensures
            instr@ == encode(*self, operands@),
            instr@.len() == self.encoded_len(),
    {
        let mut instr: Vec<u8> = Vec::new();
        instr.push(self.as_byte());
        let mut i: usize = 0;
        while i < operands.len()
            invariant
                i <= operands.len(),
                self.accepts(operands@),
                instr@ == seq![self.tag()] + encode_operands(operands@.take(i as int)),
            decreases operands.len() - i,
        {
            let operand = operands[i];
            assert(operands@[i as int] <= MAX_OPERAND);
            instr.push((operand / 256) as u8);
            instr.push((operand % 256) as u8);
            proof {
                let before = operands@.take(i as int);
                let after = operands@.take(i as int + 1);
                assert(after.drop_last() =~= before);
                assert(after.last() == operand);
                assert(instr@ =~= seq![self.tag()] + encode_operands(after));
            }
            i = i + 1;
        }
        proof {
            assert(operands@.take(i as int) =~= operands@);
            lemma_encoded_len(*self, operands@);
        }
        instr
    }
}

/// An accepted instruction occupies one byte and the sum of its operand widths.
pub proof fn lemma_encoded_len(opcode: OpCode, operands: Seq<usize>)
    requires
        opcode.accepts(operands),
    ensures
        encode(opcode, operands).len() == opcode.encoded_len(),
        opcode.encoded_len() == 1 + 2 * operands.len(),
{
    lemma_encode_operands_len(operands);
    let w = opcode.widths();
    if w.len() > 0 {
        assert(w.len() == 1);
        assert(total_width(w.drop_last()) == 0);
        assert(w.last() == 2);
    }
}

/// Each operand takes two bytes.
pub proof fn lemma_encode_operands_len(operands: Seq<usize>)
    ensures
        encode_operands(operands).len() == 2 * operands.len(),
    decreases operands.len(),
{
    if operands.len() > 0 {
        lemma_encode_operands_len(operands.drop_last());
    }
}

/// What `decode_operands` gives on success: one operand for each width, and
/// a length that counts the tag byte and the widths and stays inside `ins`.
pub proof fn lemma_decode_operands_length(widths: Seq<u8>, ins: Seq<u8>)
    requires
        decode_operands(widths, ins) is Ok,
    ensures
        decode_operands(widths, ins)->Ok_0.0.len() == widths.len(),
        decode_operands(widths, ins)->Ok_0.1 == 1 + total_width(widths),
        1 <= decode_operands(widths, ins)->Ok_0.1 <= ins.len(),
    decreases widths.len(),
{
    if widths.len() > 0 {
        lemma_decode_operands_length(widths.drop_last(), ins);
    }
}

/// A decoded instruction occupies at least its tag byte and no more than
/// the stream holds.
pub proof fn lemma_decoded_length(ins: Seq<u8>)
    ensures
        decode(ins) matches Ok(d) ==> 1 <= d.length <= ins.len() && d.length
            == d.opcode.encoded_len() && d.operands.len() == d.opcode.widths().len(),
{
    if ins.len() > 0 {
        match OpCode::from_tag(ins[0]) {
            None => {},
            Some(opcode) => {
                if decode_operands(opcode.widths(), ins) is Ok {
                    lemma_decode_operands_length(opcode.widths(), ins);
                }
            },
        }
    }
}

/// An error met on the first widths is the error of the whole list.
proof fn lemma_decode_operands_error(widths: Seq<u8>, ins: Seq<u8>, k: int)
    requires
        0 <= k <= widths.len(),
        decode_operands(widths.take(k), ins) is Err,
    ensures
        decode_operands(widths, ins) == decode_operands(widths.take(k), ins),
    decreases widths.len() - k,
{
    if k < widths.len() {
        assert(widths.take(k + 1).drop_last() =~= widths.take(k));
        lemma_decode_operands_error(widths, ins, k + 1);
    } else {
        assert(widths.take(k) =~= widths);
    }
}

/// Reads a big-endian `u16` from the first two bytes of `input`.
pub fn read_be_u16(input: &[u8]) -> (value: u16)
    requires
        input@.len() >= 2,
    ensures
        value == input@[0] * 256 + input@[1],
        value as usize == operand_value(input@, 0),
{
    let high: u16 = input[0] as u16;
    let low: u16 = input[1] as u16;
    high * 256 + low
}

/// Reads the operands of the instruction at the head of `ins`, one for each
/// width in `op_width`, and tells how many bytes the instruction occupies.
pub fn read_operands(op_width: &[u8], ins: &[u8]) -> (r: Result<(Vec<Operand>, usize), DecodeError>)
    ensures
        match decode_operands(op_width@, ins@) {
            Ok((operands, length)) => r matches Ok((v, n)) && v@ == operands && n == length,
            Err(e) => r matches Err(err) && err == e,
        },
{
    if ins.len() == 0 {
        proof {
            assert(op_width@.take(0).len() == 0);
            lemma_decode_operands_error(op_width@, ins@, 0);
        }
        return Err(DecodeError::Truncated);
    }
    let mut operands: Vec<Operand> = Vec::new();
    let mut offset: usize = 1;
    let mut i: usize = 0;
    proof {
        assert(op_width@.take(0).len() == 0);
    }
    while i < op_width.len()
        invariant
            i <= op_width.len(),
            1 <= offset <= ins.len(),
            decode_operands(op_width@.take(i as int), ins@) == Ok::<
                (Seq<usize>, nat),
                DecodeError,
            >((operands@, offset as nat)),
        decreases op_width.len() - i,
    {
        let width = op_width[i];
        proof {
            assert(op_width@.take(i as int + 1).drop_last() =~= op_width@.take(i as int));
        }
        if width != 2 {
            proof {
                lemma_decode_operands_error(op_width@, ins@, i as int + 1);
            }
            return Err(DecodeError::UnsupportedWidth(width));
        }
        if ins.len() - offset < 2 {
            proof {
                lemma_decode_operands_error(op_width@, ins@, i as int + 1);
            }
            return Err(DecodeError::Truncated);
        }
        let value = read_be_u16(slice_subrange(ins, offset, ins.len()));
        operands.push(value as usize);
        offset = offset + 2;
        i = i + 1;
    }
    proof {
        assert(op_width@.take(i as int) =~= op_width@);
    }
    Ok((operands, offset))
}

/// Decodes the instruction at the head of `ins`: its opcode, its operands
/// and the number of bytes it occupies.
pub fn read_instruction(ins: &[u8]) -> (r: Result<(OpCode, Vec<Operand>, usize), DecodeError>)
    ensures
        match decode(ins@) {
            Ok(d) => r matches Ok((opcode, operands, length)) && opcode == d.opcode && operands@
                == d.operands && length == d.length,
            Err(e) => r matches Err(err) && err == e,
        },
{
    if ins.len() == 0 {
        return Err(DecodeError::Truncated);
    }
    match OpCode::from_byte(ins[0]) {
        None => Err(DecodeError::UnknownOpcode(ins[0])),
        Some(opcode) => {
            let op_width = opcode.definition();
            match read_operands(op_width.as_slice(), ins) {
                Err(e) => Err(e),
                Ok((operands, length)) => Ok((opcode, operands, length)),
            }
        },
    }
}

fn digit_str(d: usize) -> (s: &'static str)
    requires
        d < 10,
    ensures
        s@ == seq![digit_char(d as nat)],
{
    proof {
        reveal_strlit("0");
        reveal_strlit("1");
        reveal_strlit("2");
        reveal_strlit("3");
        reveal_strlit("4");
        reveal_strlit("5");
        reveal_strlit("6");
        reveal_strlit("7");
        reveal_strlit("8");
        reveal_strlit("9");
    }
    let s = match d {
        0 => "0",
        1 => "1",
        2 => "2",
        3 => "3",
        4 => "4",
        5 => "5",
        6 => "6",
        7 => "7",
        8 => "8",
        _ => "9",
    };
    assert(s@ =~= seq![digit_char(d as nat)]);
    s
}

/// Appends the decimal numeral of `n` to `text`.
pub fn push_decimal(text: &mut String, n: u64)
    ensures
        final(text)@ == old(text)@ + decimal(n as nat),
    decreases n,
{
    if n >= 10 {
        push_decimal(text, n / 10);
    }
    text.append(digit_str((n % 10) as usize));
    proof {
        if n >= 10 {
            assert(text@ =~= old(text)@ + decimal(n as nat));
        }
    }
}

fn push_padded_decimal(text: &mut String, n: usize)
    ensures
        final(text)@ == old(text)@ + padded_decimal(n as nat),
{
    proof {
        reveal_strlit("000");
        reveal_strlit("00");
        reveal_strlit("0");
    }
    if n < 10 {
        text.append("000");
        assert(text@ =~= old(text)@ + seq!['0', '0', '0']);
    } else if n < 100 {
        text.append("00");
        assert(text@ =~= old(text)@ + seq!['0', '0']);
    } else if n < 1000 {
        text.append("0");
        assert(text@ =~= old(text)@ + seq!['0']);
    }
    push_decimal(text, n as u64);
    assert(text@ =~= old(text)@ + padded_decimal(n as nat));
}

fn push_operand_list(text: &mut String, operands: &Vec<Operand>)
    ensures
        final(text)@ == old(text)@ + operand_list(operands@),
{
    let mut i: usize = 0;
    assert(operands@.take(0).len() == 0);
    assert(text@ =~= old(text)@ + operand_list(operands@.take(0)));
    while i < operands.len()
        invariant
            i <= operands.len(),
            text@ == old(text)@ + operand_list(operands@.take(i as int)),
        decreases operands.len() - i,
    {
        let ghost before = text@;
        if i > 0 {
            proof {
                reveal_strlit(", ");
            }
            text.append(", ");
            assert(text@ =~= before + seq![',', ' ']);
        }
        push_decimal(text, operands[i] as u64);
        proof {
            let prefix = operands@.take(i as int);
            let next = operands@.take(i as int + 1);
            assert(next.drop_last() =~= prefix);
            assert(next.last() == operands@[i as int]);
            if i == 0 {
                assert(next[0] == operands@[0]);
            }
            assert(text@ =~= old(text)@ + operand_list(next));
        }
        i = i + 1;
    }
    assert(operands@.take(i as int) =~= operands@);
}

fn push_line(text: &mut String, offset: usize, opcode: OpCode, operands: &Vec<Operand>)
    ensures
        final(text)@ == old(text)@ + line_text(
            Line { offset: offset as nat, opcode, operands: operands@ },
        ),
{
    proof {
        reveal_strlit(" [");
        reveal_strlit("]\n");
    }
    push_padded_decimal(text, offset);
    text.append(" opcode: ");
    text.append(opcode.name());
    text.append(" [");
    let ghost before = text@;
    assert(before =~= old(text)@ + padded_decimal(offset as nat) + " opcode: "@ + opcode.mnemonic()
        + seq![' ', '[']);
    push_operand_list(text, operands);
    let ghost listed = text@;
    text.append("]\n");
    assert(text@ =~= listed + seq![']', '\n']);
    assert(text@ =~= old(text)@ + line_text(
        Line { offset: offset as nat, opcode, operands: operands@ },
    ));
}

/// Renders an instruction stream as text, one line for each instruction:
/// the offset of its first byte, its opcode and its operands. A stream that
/// does not decode to its end gives the error and no text.
pub fn fmt_disassemble(ins: &[u8]) -> (r: Result<String, DecodeError>)
    ensures
        match disassemble(ins@) {
            Ok(lines) => r matches Ok(text) && text@ == render(lines),
            Err(e) => r matches Err(err) && err == e,
        },
{
    let mut text = String::new();
    let mut c: usize = 0;
    let ghost mut lines: Seq<Line> = Seq::empty();
    assert(prepend_lines(lines, disassemble_from(ins@, 0)) == disassemble(ins@)) by {
        match disassemble_from(ins@, 0) {
            Ok(more) => {
                assert(lines + more =~= more);
            },
            Err(_) => {},
        }
    }
    while c < ins.len()
        invariant
            c <= ins.len(),
            text@ == render(lines),
            disassemble(ins@) == prepend_lines(lines, disassemble_from(ins@, c as nat)),
        decreases ins.len() - c,
    {
        proof {
            lemma_decoded_length(ins@.skip(c as int));
            assert(ins@.subrange(c as int, ins@.len() as int) =~= ins@.skip(c as int));
        }
        match read_instruction(slice_subrange(ins, c, ins.len())) {
            Err(e) => {
                return Err(e);
            },
            Ok((opcode, operands, n_read)) => {
                push_line(&mut text, c, opcode, &operands);
                proof {
                    let line = Line { offset: c as nat, opcode, operands: operands@ };
                    let rest = disassemble_from(ins@, (c + n_read) as nat);
                    assert(disassemble_from(ins@, c as nat) == prepend_lines(seq![line], rest));
                    assert(lines.push(line).drop_last() =~= lines);
                    match rest {
                        Ok(more) => {
                            assert(lines + (seq![line] + more) =~= lines.push(line) + more);
                        },
                        Err(_) => {},
                    }
                    lines = lines.push(line);
                }
                c = c + n_read;
            },
        }
    }
    Ok(text)
}

/// Operands written for widths of two bytes each, behind any tag byte and
/// in front of any further bytes, are read back as they were.
proof fn lemma_decode_encoded_operands(
    widths: Seq<u8>,
    operands: Seq<usize>,
    tag: u8,
    rest: Seq<u8>,
)
    requires
        widths.len() == operands.len(),
        forall|i: int| 0 <= i < widths.len() ==> #[trigger] widths[i] == 2,
        forall|i: int| 0 <= i < operands.len() ==> #[trigger] operands[i] <= MAX_OPERAND,
    ensures
        decode_operands(widths, seq![tag] + encode_operands(operands) + rest) == Ok::<
            (Seq<usize>, nat),
            DecodeError,
        >((operands, (1 + 2 * operands.len()) as nat)),
    decreases operands.len(),
{
    let ins = seq![tag] + encode_operands(operands) + rest;
    if operands.len() > 0 {
        let last = operands.last();
        let front = operands.drop_last();
        let more = operand_bytes(last) + rest;
        assert(ins =~= seq![tag] + encode_operands(front) + more);
        let front_widths = widths.drop_last();
        assert forall|i: int| 0 <= i < front.len() implies #[trigger] front[i] <= MAX_OPERAND by {
            assert(front[i] == operands[i]);
        }
        assert forall|i: int| 0 <= i < front_widths.len() implies #[trigger] front_widths[i]
            == 2 by {
            assert(front_widths[i] == widths[i]);
        }
        lemma_decode_encoded_operands(front_widths, front, tag, more);
        lemma_encode_operands_len(front);
        let offset: int = 1 + 2 * (front.len() as int);
        assert(ins[offset] == (last / 256) as u8);
        assert(ins[offset + 1] == (last % 256) as u8);
        assert(operands[operands.len() - 1] <= MAX_OPERAND);
        assert(operand_value(ins, offset) == last);
        assert(front.push(last) =~= operands);
    } else {
        assert(operands =~= Seq::empty());
    }
}

/// Decoding what was encoded gives back the opcode and the operands, and
/// consumes exactly the bytes of the instruction, whatever follows it in
/// the stream.
pub proof fn lemma_decode_encode_in_stream(opcode: OpCode, operands: Seq<usize>, rest: Seq<u8>)
    requires
        opcode.accepts(operands),
    ensures
        decode(encode(opcode, operands) + rest) == Ok::<Decoded, DecodeError>(
            Decoded { opcode, operands, length: opcode.encoded_len() },
        ),
        opcode.encoded_len() == encode(opcode, operands).len(),
{
    lemma_encoded_len(opcode, operands);
    lemma_decode_encoded_operands(opcode.widths(), operands, opcode.tag(), rest);
    assert(OpCode::from_tag(opcode.tag()) == Some(opcode));
    assert((encode(opcode, operands) + rest)[0] == opcode.tag());
}

/// Encoding and decoding are inverse: for every opcode and all operands
/// within its declared widths, decoding the encoded instruction gives the
/// opcode and the operands back and consumes one byte more than the sum of
/// the widths.
pub proof fn lemma_decode_encode(opcode: OpCode, operands: Seq<usize>)
    requires
        opcode.accepts(operands),
    ensures
        decode(encode(opcode, operands)) == Ok::<Decoded, DecodeError>(
            Decoded { opcode, operands, length: 1 + total_width(opcode.widths()) },
        ),
        encode(opcode, operands).len() == 1 + total_width(opcode.widths()),
{
    lemma_decode_encode_in_stream(opcode, operands, Seq::empty());
    assert(encode(opcode, operands) + Seq::<u8>::empty() =~= encode(opcode, operands));
}

/// Whether each instruction of a program has operands that its opcode accepts.
pub open spec fn all_accepted(program: Seq<(OpCode, Seq<usize>)>) -> bool {
    forall|i: int| 0 <= i < program.len() ==> (#[trigger] program[i]).0.accepts(program[i].1)
}

/// The encodings of a program's instructions, one after the other.
pub open spec fn assemble(program: Seq<(OpCode, Seq<usize>)>) -> Seq<u8>
    decreases program.len(),
{
    if program.len() == 0 {
        Seq::empty()
    } else {
        encode(program[0].0, program[0].1) + assemble(program.drop_first())
    }
}

/// One line for each instruction of a program whose first instruction
/// starts at `base`: each offset is the one before it plus the encoded
/// length of the instruction before it.
pub open spec fn listing(program: Seq<(OpCode, Seq<usize>)>, base: nat) -> Seq<Line>
    decreases program.len(),
{
    if program.len() == 0 {
        Seq::empty()
    } else {
        seq![Line { offset: base, opcode: program[0].0, operands: program[0].1 }] + listing(
            program.drop_first(),
            base + program[0].0.encoded_len(),
        )
    }
}

/// A listing has one line for each instruction.
pub proof fn lemma_listing_len(program: Seq<(OpCode, Seq<usize>)>, base: nat)
    ensures
        listing(program, base).len() == program.len(),
    decreases program.len(),
{
    if program.len() > 0 {
        lemma_listing_len(program.drop_first(), base + program[0].0.encoded_len());
    }
}

proof fn lemma_disassemble_assembled_from(
    before: Seq<u8>,
    program: Seq<(OpCode, Seq<usize>)>,
)
    requires
        all_accepted(program),
    ensures
        disassemble_from(before + assemble(program), before.len()) == Ok::<
            Seq<Line>,
            DecodeError,
        >(listing(program, before.len())),
    decreases program.len(),
{
    let ins = before + assemble(program);
    if program.len() > 0 {
        let (opcode, operands) = program[0];
        let rest = program.drop_first();
        let head = encode(opcode, operands);
        assert(opcode.accepts(operands));
        assert(all_accepted(rest)) by {
            assert forall|i: int| 0 <= i < rest.len() implies (#[trigger] rest[i]).0.accepts(
                rest[i].1,
            ) by {
                assert(rest[i] == program[i + 1]);
            }
        }
        lemma_decode_encode_in_stream(opcode, operands, assemble(rest));
        assert(ins.skip(before.len() as int) =~= head + assemble(rest));
        assert(ins =~= (before + head) + assemble(rest));
        lemma_disassemble_assembled_from(before + head, rest);
        assert((before + head).len() == before.len() + opcode.encoded_len());
    } else {
        assert(ins =~= before);
    }
}

/// Disassembling the concatenation of encoded instructions gives one line
/// for each of them, in order, with offsets that start at zero and grow by
/// the exact encoded length of each instruction.
pub proof fn lemma_disassemble_assembled(program: Seq<(OpCode, Seq<usize>)>)
    requires
        all_accepted(program),
    ensures
        disassemble(assemble(program)) == Ok::<Seq<Line>, DecodeError>(listing(program, 0)),
        listing(program, 0).len() == program.len(),
{
    lemma_disassemble_assembled_from(Seq::empty(), program);
    assert(Seq::<u8>::empty() + assemble(program) =~= assemble(program));
    lemma_listing_len(program, 0);
}

/// Whether a stream is complete instructions from its start to its end.
pub open spec fn well_formed(ins: Seq<u8>) -> bool {
    disassemble(ins) is Ok
}

/// The operands that are read from a stream are read from any stream that
/// starts with it.
proof fn lemma_decode_operands_in_front(widths: Seq<u8>, ins: Seq<u8>, more: Seq<u8>)
    requires
        decode_operands(widths, ins) is Ok,
    ensures
        decode_operands(widths, ins + more) == decode_operands(widths, ins),
    decreases widths.len(),
{
    if widths.len() > 0 {
        lemma_decode_operands_in_front(widths.drop_last(), ins, more);
        lemma_decode_operands_length(widths.drop_last(), ins);
    }
}

/// The instruction at the head of a stream is the instruction at the head
/// of any stream that starts with it.
pub proof fn lemma_decode_in_front(ins: Seq<u8>, more: Seq<u8>)
    requires
        decode(ins) is Ok,
    ensures
        decode(ins + more) == decode(ins),
{
    let opcode = OpCode::from_tag(ins[0])->Some_0;
    assert((ins + more)[0] == ins[0]);
    lemma_decode_operands_in_front(opcode.widths(), ins, more);
}

/// Behind a first stream, a second one decodes as it does alone.
proof fn lemma_disassemble_behind(first: Seq<u8>, second: Seq<u8>, at: nat)
    requires
        disassemble_from(second, at) is Ok,
    ensures
        disassemble_from(first + second, first.len() + at) is Ok,
    decreases second.len() - at,
{
    if at < second.len() {
        assert((first + second).skip((first.len() + at) as int) =~= second.skip(at as int));
        let d = decode(second.skip(at as int))->Ok_0;
        lemma_decoded_length(second.skip(at as int));
        lemma_disassemble_behind(first, second, at + d.length);
    }
}

proof fn lemma_disassemble_both(first: Seq<u8>, second: Seq<u8>, at: nat)
    requires
        at <= first.len(),
        disassemble_from(first, at) is Ok,
        disassemble(second) is Ok,
    ensures
        disassemble_from(first + second, at) is Ok,
    decreases first.len() - at,
{
    if at < first.len() {
        let head = first.skip(at as int);
        let d = decode(head)->Ok_0;
        lemma_decoded_length(head);
        lemma_decode_in_front(head, second);
        assert((first + second).skip(at as int) =~= head + second);
        lemma_disassemble_both(first, second, at + d.length);
    } else {
        lemma_disassemble_behind(first, second, 0);
    }
}

/// Two well-formed streams, one behind the other, are a well-formed stream.
pub proof fn lemma_well_formed_concat(first: Seq<u8>, second: Seq<u8>)
    requires
        well_formed(first),
        well_formed(second),
    ensures
        well_formed(first + second),
{
    lemma_disassemble_both(first, second, 0);
}

/// An encoded instruction is a well-formed stream.
pub proof fn lemma_well_formed_instruction(opcode: OpCode, operands: Seq<usize>)
    requires
        opcode.accepts(operands),
    ensures
        well_formed(encode(opcode, operands)),
{
    let ins = encode(opcode, operands);
    lemma_decode_encode_in_stream(opcode, operands, Seq::empty());
    assert(ins + Seq::<u8>::empty() =~= ins);
    assert(ins.skip(0) =~= ins);
    assert(disassemble_from(ins, ins.len()) is Ok);
}

} // verus!
