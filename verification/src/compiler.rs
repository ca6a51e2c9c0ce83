//! The compiler: it walks a syntax tree and appends instructions to a byte
//! stream and literals to a constant pool, patching jump targets once they
//! are known.

use crate::ast::{Expression, Statement};
use crate::code::{
    decode, disassemble, encode, encode_operands, lemma_decode_encode_in_stream,
    lemma_well_formed_concat, lemma_well_formed_instruction, operand_bytes, well_formed,
    DecodeError, Decoded, Instructions, OpCode, Operand, MAX_OPERAND,
};
use crate::object::Object;
use crate::text::str_eq;
use vstd::prelude::*;

verus! {

/// Why a program could not be compiled.
#[derive(PartialEq, Eq, Structural, Clone, Copy, Debug)]
pub enum CompileError {
    /// An infix or prefix operator that no opcode stands for.
    UnknownOperator,
    /// An expression of a kind that the compiler has no rule for.
    UnsupportedExpression,
    /// A statement of a kind that the compiler has no rule for.
    UnsupportedStatement,
    /// A constant index or a jump target that does not fit its operand.
    OperandTooLarge,
}

/// What compiling a piece of a program adds: the instruction bytes and the
/// constants, each in the order in which they are appended.
pub ghost struct Emitted {
    pub code: Seq<u8>,
    pub constants: Seq<Object>,
}

impl Emitted {
    /// This output with an instruction behind it.
    pub open spec fn followed_by(self, instruction: Seq<u8>) -> Emitted {
        Emitted { code: self.code + instruction, constants: self.constants }
    }

    /// This output with another behind it.
    pub open spec fn plus(self, next: Emitted) -> Emitted {
        Emitted { code: self.code + next.code, constants: self.constants + next.constants }
    }
}

/// The opcode of an infix operator. `<` has none of its own: it is compiled
/// as `>` with the operands the other way round.
pub open spec fn infix_opcode(operator: Seq<char>) -> Option<OpCode> {
    if operator =~= seq!['+'] {
        Some(OpCode::Add)
    } else if operator =~= seq!['-'] {
        Some(OpCode::Sub)
    } else if operator =~= seq!['*'] {
        Some(OpCode::Mul)
    } else if operator =~= seq!['/'] {
        Some(OpCode::Div)
    } else if operator =~= seq!['>'] {
        Some(OpCode::GreaterThan)
    } else if operator =~= seq!['<'] {
        Some(OpCode::GreaterThan)
    } else if operator =~= seq!['=', '='] {
        Some(OpCode::Equal)
    } else if operator =~= seq!['!', '='] {
        Some(OpCode::NotEqual)
    } else {
        None
    }
}

/// The opcode of a prefix operator.
pub open spec fn prefix_opcode(operator: Seq<char>) -> Option<OpCode> {
    if operator =~= seq!['-'] {
        Some(OpCode::Minus)
    } else if operator =~= seq!['!'] {
        Some(OpCode::Bang)
    } else {
        None
    }
}

/// Whether the right operand of an infix operator is compiled before the left.
pub open spec fn swaps_operands(operator: Seq<char>) -> bool {
    operator =~= seq!['<']
}

/// The code of a block without the `Pop` that ends it. The code of a
/// statement is empty or ends in a `Pop`, which occupies one byte.
pub open spec fn without_trailing_pop(code: Seq<u8>) -> Seq<u8> {
    if code.len() > 0 {
        code.drop_last()
    } else {
        code
    }
}

/// What compiling an expression appends to a stream that holds `base` bytes
/// and a pool that holds `pool` constants, or why it cannot be compiled.
/// Operands come before their operator; jump operands are offsets from the
/// start of the stream.
pub open spec fn compile_expression(e: Expression, base: nat, pool: nat) -> Result<
    Emitted,
    CompileError,
>
    decreases e, 1int,
{
    match e {
        Expression::IntegerLiteral(value) => {
            if pool > MAX_OPERAND {
                Err(CompileError::OperandTooLarge)
            } else {
                Ok(
                    Emitted {
                        code: encode(OpCode::Constant, seq![pool as usize]),
                        constants: seq![Object::Int(value)],
                    },
                )
            }
        },
        Expression::Bool(value) => {
            let opcode = if value {
                OpCode::True
            } else {
                OpCode::False
            };
            Ok(Emitted { code: encode(opcode, Seq::empty()), constants: Seq::empty() })
        },
        Expression::Prefix(operator, operand) => {
            match compile_expression(*operand, base, pool) {
                Err(e) => Err(e),
                Ok(inner) => match prefix_opcode(operator@) {
                    None => Err(CompileError::UnknownOperator),
                    Some(opcode) => Ok(inner.followed_by(encode(opcode, Seq::empty()))),
                },
            }
        },
        Expression::Infix(left, operator, right) => {
            let first = if swaps_operands(operator@) {
                *right
            } else {
                *left
            };
            let second = if swaps_operands(operator@) {
                *left
            } else {
                *right
            };
            match compile_expression(first, base, pool) {
                Err(e) => Err(e),
                Ok(a) => match compile_expression(
                    second,
                    base + a.code.len(),
                    pool + a.constants.len(),
                ) {
                    Err(e) => Err(e),
                    Ok(b) => match infix_opcode(operator@) {
                        None => Err(CompileError::UnknownOperator),
                        Some(opcode) => Ok(a.plus(b).followed_by(encode(opcode, Seq::empty()))),
                    },
                },
            }
        },
        Expression::IfExpression { .. } => compile_conditional(e, base, pool),
        Expression::Identifier(_) => Err(CompileError::UnsupportedExpression),
    }
}

/// The offset at which the alternative of a conditional starts: behind the
/// condition, the conditional jump, the consequence and the jump over the
/// alternative.
pub open spec fn else_offset(base: nat, cond: Emitted, then_branch: Emitted) -> nat {
    base + cond.code.len() + 3 + without_trailing_pop(then_branch.code).len() + 3
}

/// A conditional without an alternative: the condition, a conditional jump
/// to the end and the consequence, whose value stays on the stack.
pub open spec fn single_branch(base: nat, cond: Emitted, then_branch: Emitted) -> Result<
    Emitted,
    CompileError,
> {
    let then_code = without_trailing_pop(then_branch.code);
    let end = base + cond.code.len() + 3 + then_code.len();
    if end > MAX_OPERAND {
        Err(CompileError::OperandTooLarge)
    } else {
        Ok(
            Emitted {
                code: cond.code + encode(OpCode::JumpNotTruthy, seq![end as usize]) + then_code,
                constants: cond.constants + then_branch.constants,
            },
        )
    }
}

/// A conditional with an alternative: the condition, a conditional jump to
/// the alternative, the consequence, a jump to the end and the alternative.
pub open spec fn two_branches(
    base: nat,
    cond: Emitted,
    then_branch: Emitted,
    else_branch: Emitted,
) -> Result<Emitted, CompileError> {
    let then_code = without_trailing_pop(then_branch.code);
    let else_code = without_trailing_pop(else_branch.code);
    let else_at = else_offset(base, cond, then_branch);
    let end = else_at + else_code.len();
    if end > MAX_OPERAND {
        Err(CompileError::OperandTooLarge)
    } else {
        Ok(
            Emitted {
                code: cond.code + encode(OpCode::JumpNotTruthy, seq![else_at as usize])
                    + then_code + encode(OpCode::Jump, seq![end as usize]) + else_code,
                constants: cond.constants + then_branch.constants + else_branch.constants,
            },
        )
    }
}

/// What compiling the conditional `e` appends. A jump target that does not
/// fit its operand fails the compilation at the moment the target is known.
pub open spec fn compile_conditional(e: Expression, base: nat, pool: nat) -> Result<
    Emitted,
    CompileError,
>
    recommends
        e is IfExpression,
    decreases e, 0int,
{
    match e {
        Expression::IfExpression { condition, consequence, alternative } => {
            match compile_expression(*condition, base, pool) {
                Err(e) => Err(e),
                Ok(cond) => match compile_statement(
                    *consequence,
                    base + cond.code.len() + 3,
                    pool + cond.constants.len(),
                ) {
                    Err(e) => Err(e),
                    Ok(then_branch) => match alternative {
                        None => single_branch(base, cond, then_branch),
                        Some(otherwise) => {
                            let else_at = else_offset(base, cond, then_branch);
                            if else_at > MAX_OPERAND {
                                Err(CompileError::OperandTooLarge)
                            } else {
                                match compile_statement(
                                    *otherwise,
                                    else_at,
                                    pool + cond.constants.len() + then_branch.constants.len(),
                                ) {
                                    Err(e) => Err(e),
                                    Ok(else_branch) => two_branches(
                                        base,
                                        cond,
                                        then_branch,
                                        else_branch,
                                    ),
                                }
                            }
                        },
                    },
                },
            }
        },
        _ => Err(CompileError::UnsupportedExpression),
    }
}

/// The stream `code` with the operand of the instruction at `position`
/// replaced by `operand`.
pub open spec fn with_operand(code: Seq<u8>, position: int, operand: usize) -> Seq<u8> {
    code.take(position + 1) + operand_bytes(operand) + code.skip(position + 3)
}

/// What compiling a statement appends. An expression statement is its
/// expression and a `Pop`; a block is its statements in order.
pub open spec fn compile_statement(s: Statement, base: nat, pool: nat) -> Result<
    Emitted,
    CompileError,
>
    decreases s, 0int,
{
    match s {
        Statement::Expr(e) => match compile_expression(e, base, pool) {
            Err(e) => Err(e),
            Ok(value) => Ok(value.followed_by(encode(OpCode::Pop, Seq::empty()))),
        },
        Statement::Block(statements) => compile_statements(statements@, base, pool),
        Statement::Let(_, _) => Err(CompileError::UnsupportedStatement),
    }
}

/// What compiling statements one after the other appends: each starts
/// where the one before it ended, and the first that fails fails them all.
pub open spec fn compile_statements(statements: Seq<Statement>, base: nat, pool: nat) -> Result<
    Emitted,
    CompileError,
>
    decreases statements, 0int,
{
    if statements.len() == 0 {
        Ok(Emitted { code: Seq::empty(), constants: Seq::empty() })
    } else {
        match compile_statements(statements.drop_last(), base, pool) {
            Err(e) => Err(e),
            Ok(front) => match compile_statement(
                statements.last(),
                base + front.code.len(),
                pool + front.constants.len(),
            ) {
                Err(e) => Err(e),
                Ok(last) => Ok(front.plus(last)),
            },
        }
    }
}

/// An instruction without operands is its tag byte.
pub proof fn lemma_encode_plain(opcode: OpCode)
    ensures
        encode(opcode, Seq::empty()) =~= seq![opcode.tag()],
{
}

/// An instruction with one operand is its tag byte and the operand's two bytes.
pub proof fn lemma_encode_one(opcode: OpCode, operand: usize)
    ensures
        encode(opcode, seq![operand]) =~= seq![opcode.tag()] + operand_bytes(operand),
        encode(opcode, seq![operand]).len() == 3,
{
    let operands = seq![operand];
    assert(operands.drop_last() =~= Seq::<usize>::empty());
    assert(encode_operands(operands.drop_last()) =~= Seq::<u8>::empty());
}

/// Replacing the operand of an instruction that stands between `before`
/// and `after` gives the same stream with the instruction encoded anew.
proof fn lemma_patch(
    before: Seq<u8>,
    opcode: OpCode,
    placeholder: usize,
    operand: usize,
    after: Seq<u8>,
)
    ensures
        with_operand(
            before + encode(opcode, seq![placeholder]) + after,
            before.len() as int,
            operand,
        ) == before + encode(opcode, seq![operand]) + after,
{
    lemma_encode_one(opcode, placeholder);
    lemma_encode_one(opcode, operand);
    assert(with_operand(
        before + encode(opcode, seq![placeholder]) + after,
        before.len() as int,
        operand,
    ) =~= before + encode(opcode, seq![operand]) + after);
}

/// An error met on the first statements is the error of them all.
proof fn lemma_compile_statements_error(statements: Seq<Statement>, base: nat, pool: nat, k: int)
    requires
        0 <= k <= statements.len(),
        compile_statements(statements.take(k), base, pool) is Err,
    ensures
        compile_statements(statements, base, pool) == compile_statements(
            statements.take(k),
            base,
            pool,
        ),
    decreases statements.len() - k,
{
    if k < statements.len() {
        assert(statements.take(k + 1).drop_last() =~= statements.take(k));
        lemma_compile_statements_error(statements, base, pool, k + 1);
    } else {
        assert(statements.take(k) =~= statements);
    }
}

/// The code of a statement, where it is not empty, ends in a `Pop`.
pub proof fn lemma_statement_ends_in_pop(s: Statement, base: nat, pool: nat)
    requires
        compile_statement(s, base, pool) is Ok,
        compile_statement(s, base, pool)->Ok_0.code.len() > 0,
    ensures
        compile_statement(s, base, pool)->Ok_0.code.last() == OpCode::Pop.tag(),
    decreases s, 0int,
{
    match s {
        Statement::Expr(e) => {
            lemma_encode_plain(OpCode::Pop);
        },
        Statement::Block(statements) => {
            lemma_statements_end_in_pop(statements@, base, pool);
        },
        Statement::Let(_, _) => {},
    }
}

/// The code of a sequence of statements, where it is not empty, ends in a `Pop`.
pub proof fn lemma_statements_end_in_pop(statements: Seq<Statement>, base: nat, pool: nat)
    requires
        compile_statements(statements, base, pool) is Ok,
        compile_statements(statements, base, pool)->Ok_0.code.len() > 0,
    ensures
        compile_statements(statements, base, pool)->Ok_0.code.last() == OpCode::Pop.tag(),
    decreases statements, 0int,
{
    if statements.len() > 0 {
        let front = compile_statements(statements.drop_last(), base, pool)->Ok_0;
        let last = compile_statement(
            statements.last(),
            base + front.code.len(),
            pool + front.constants.len(),
        )->Ok_0;
        if last.code.len() > 0 {
            lemma_statement_ends_in_pop(
                statements.last(),
                base + front.code.len(),
                pool + front.constants.len(),
            );
        } else {
            assert(front.code + last.code =~= front.code);
            lemma_statements_end_in_pop(statements.drop_last(), base, pool);
        }
    }
}

/// In the code of a conditional without an alternative, the conditional
/// jump stands right behind the condition, and its operand, decoded from
/// the finished code, is the offset of the first byte behind the
/// conditional.
pub proof fn lemma_conditional_jump_target(e: Expression, base: nat, pool: nat)
    requires
        e is IfExpression,
        e->alternative is None,
        compile_expression(e, base, pool) is Ok,
    ensures
        compile_expression(*e->condition, base, pool) is Ok,
        ({
            let out = compile_expression(e, base, pool)->Ok_0;
            let cond = compile_expression(*e->condition, base, pool)->Ok_0;
            decode(out.code.skip(cond.code.len() as int)) == Ok::<Decoded, DecodeError>(
                Decoded {
                    opcode: OpCode::JumpNotTruthy,
                    operands: seq![(base + out.code.len()) as usize],
                    length: 3,
                },
            )
        }),
{
    let out = compile_expression(e, base, pool)->Ok_0;
    let cond = compile_expression(*e->condition, base, pool)->Ok_0;
    let then_branch = compile_statement(
        *e->consequence,
        base + cond.code.len() + 3,
        pool + cond.constants.len(),
    )->Ok_0;
    let then_code = without_trailing_pop(then_branch.code);
    assert(compile_expression(e, base, pool) == compile_conditional(e, base, pool));
    assert(compile_expression(*e->condition, base, pool) is Ok);
    assert(compile_statement(
        *e->consequence,
        base + cond.code.len() + 3,
        pool + cond.constants.len(),
    ) is Ok);
    assert(single_branch(base, cond, then_branch) == Ok::<Emitted, CompileError>(out));
    let end = (base + cond.code.len() + 3 + then_code.len()) as usize;
    lemma_encode_one(OpCode::JumpNotTruthy, end);
    assert(OpCode::JumpNotTruthy.accepts(seq![end]));
    lemma_decode_encode_in_stream(OpCode::JumpNotTruthy, seq![end], then_code);
    assert(out.code.skip(cond.code.len() as int) =~= encode(OpCode::JumpNotTruthy, seq![end])
        + then_code);
}

/// In the code of a conditional with an alternative, the operand of the
/// conditional jump, decoded from the finished code, is the offset at which
/// the alternative starts, and the operand of the jump that ends the
/// consequence is the offset of the first byte behind the conditional.
pub proof fn lemma_alternative_jump_targets(e: Expression, base: nat, pool: nat)
    requires
        e is IfExpression,
        e->alternative is Some,
        compile_expression(e, base, pool) is Ok,
    ensures
        compile_expression(*e->condition, base, pool) is Ok,
        ({
            let out = compile_expression(e, base, pool)->Ok_0;
            let cond = compile_expression(*e->condition, base, pool)->Ok_0;
            let then_branch = compile_statement(
                *e->consequence,
                base + cond.code.len() + 3,
                pool + cond.constants.len(),
            )->Ok_0;
            let else_at = else_offset(base, cond, then_branch);
            let else_branch = compile_statement(
                *e->alternative->Some_0,
                else_at,
                pool + cond.constants.len() + then_branch.constants.len(),
            )->Ok_0;
            &&& decode(out.code.skip(cond.code.len() as int)) == Ok::<Decoded, DecodeError>(
                Decoded {
                    opcode: OpCode::JumpNotTruthy,
                    operands: seq![else_at as usize],
                    length: 3,
                },
            )
            &&& decode(out.code.skip(else_at - base - 3)) == Ok::<Decoded, DecodeError>(
                Decoded {
                    opcode: OpCode::Jump,
                    operands: seq![(base + out.code.len()) as usize],
                    length: 3,
                },
            )
            &&& out.code.skip(else_at - base) == without_trailing_pop(else_branch.code)
        }),
{
    let out = compile_expression(e, base, pool)->Ok_0;
    let cond = compile_expression(*e->condition, base, pool)->Ok_0;
    let then_branch = compile_statement(
        *e->consequence,
        base + cond.code.len() + 3,
        pool + cond.constants.len(),
    )->Ok_0;
    let then_code = without_trailing_pop(then_branch.code);
    let else_at = else_offset(base, cond, then_branch);
    let else_branch = compile_statement(
        *e->alternative->Some_0,
        else_at,
        pool + cond.constants.len() + then_branch.constants.len(),
    )->Ok_0;
    let else_code = without_trailing_pop(else_branch.code);
    assert(compile_expression(e, base, pool) == compile_conditional(e, base, pool));
    assert(compile_expression(*e->condition, base, pool) is Ok);
    assert(compile_statement(
        *e->consequence,
        base + cond.code.len() + 3,
        pool + cond.constants.len(),
    ) is Ok);
    assert(else_at <= MAX_OPERAND);
    assert(compile_statement(
        *e->alternative->Some_0,
        else_at,
        pool + cond.constants.len() + then_branch.constants.len(),
    ) is Ok);
    assert(two_branches(base, cond, then_branch, else_branch) == Ok::<Emitted, CompileError>(
        out,
    ));
    let end = (else_at + else_code.len()) as usize;
    let jump_not_truthy = encode(OpCode::JumpNotTruthy, seq![else_at as usize]);
    let jump = encode(OpCode::Jump, seq![end]);
    lemma_encode_one(OpCode::JumpNotTruthy, else_at as usize);
    lemma_encode_one(OpCode::Jump, end);
    assert(OpCode::JumpNotTruthy.accepts(seq![else_at as usize]));
    assert(OpCode::Jump.accepts(seq![end]));
    lemma_decode_encode_in_stream(
        OpCode::JumpNotTruthy,
        seq![else_at as usize],
        then_code + jump + else_code,
    );
    lemma_decode_encode_in_stream(OpCode::Jump, seq![end], else_code);
    assert(out.code == cond.code + jump_not_truthy + then_code + jump + else_code);
    assert(out.code.skip(cond.code.len() as int) =~= jump_not_truthy + (then_code + jump
        + else_code));
    assert(out.code.skip(else_at - base - 3) =~= jump + else_code);
    assert(out.code.skip(else_at - base) =~= else_code);
}

/// The code of an expression is complete instructions from start to end.
pub proof fn lemma_expression_well_formed(e: Expression, base: nat, pool: nat)
    requires
        compile_expression(e, base, pool) is Ok,
    ensures
        well_formed(compile_expression(e, base, pool)->Ok_0.code),
    decreases e, 1int,
{
    match e {
        Expression::IntegerLiteral(value) => {
            assert(OpCode::Constant.accepts(seq![pool as usize]));
            lemma_well_formed_instruction(OpCode::Constant, seq![pool as usize]);
        },
        Expression::Bool(value) => {
            lemma_well_formed_instruction(OpCode::True, Seq::empty());
            lemma_well_formed_instruction(OpCode::False, Seq::empty());
        },
        Expression::Prefix(operator, operand) => {
            let inner = compile_expression(*operand, base, pool)->Ok_0;
            let opcode = prefix_opcode(operator@)->Some_0;
            lemma_expression_well_formed(*operand, base, pool);
            lemma_well_formed_instruction(opcode, Seq::empty());
            lemma_well_formed_concat(inner.code, encode(opcode, Seq::empty()));
        },
        Expression::Infix(left, operator, right) => {
            let first = if swaps_operands(operator@) {
                *right
            } else {
                *left
            };
            let second = if swaps_operands(operator@) {
                *left
            } else {
                *right
            };
            let a = compile_expression(first, base, pool)->Ok_0;
            let b = compile_expression(
                second,
                base + a.code.len(),
                pool + a.constants.len(),
            )->Ok_0;
            let opcode = infix_opcode(operator@)->Some_0;
            lemma_expression_well_formed(first, base, pool);
            lemma_expression_well_formed(second, base + a.code.len(), pool + a.constants.len());
            lemma_well_formed_instruction(opcode, Seq::empty());
            lemma_well_formed_concat(a.code, b.code);
            lemma_well_formed_concat(a.code + b.code, encode(opcode, Seq::empty()));
        },
        Expression::IfExpression { .. } => {
            lemma_conditional_well_formed(e, base, pool);
        },
        Expression::Identifier(_) => {},
    }
}

/// The code of a conditional is complete instructions from start to end.
proof fn lemma_conditional_well_formed(e: Expression, base: nat, pool: nat)
    requires
        e is IfExpression,
        compile_conditional(e, base, pool) is Ok,
    ensures
        well_formed(compile_conditional(e, base, pool)->Ok_0.code),
    decreases e, 0int,
{
    let cond = compile_expression(*e->condition, base, pool)->Ok_0;
    let then_at = base + cond.code.len() + 3;
    let then_branch = compile_statement(
        *e->consequence,
        then_at,
        pool + cond.constants.len(),
    )->Ok_0;
    let then_code = without_trailing_pop(then_branch.code);
    lemma_expression_well_formed(*e->condition, base, pool);
    lemma_statement_well_formed(*e->consequence, then_at, pool + cond.constants.len());
    match e->alternative {
        None => {
            let end = (then_at + then_code.len()) as usize;
            let jump_not_truthy = encode(OpCode::JumpNotTruthy, seq![end]);
            assert(OpCode::JumpNotTruthy.accepts(seq![end]));
            lemma_well_formed_instruction(OpCode::JumpNotTruthy, seq![end]);
            lemma_well_formed_concat(cond.code, jump_not_truthy);
            lemma_well_formed_concat(cond.code + jump_not_truthy, then_code);
        },
        Some(otherwise) => {
            let else_at = else_offset(base, cond, then_branch);
            let else_branch = compile_statement(
                *otherwise,
                else_at,
                pool + cond.constants.len() + then_branch.constants.len(),
            )->Ok_0;
            let else_code = without_trailing_pop(else_branch.code);
            let end = (else_at + else_code.len()) as usize;
            let jump_not_truthy = encode(OpCode::JumpNotTruthy, seq![else_at as usize]);
            let jump = encode(OpCode::Jump, seq![end]);
            lemma_statement_well_formed(
                *otherwise,
                else_at,
                pool + cond.constants.len() + then_branch.constants.len(),
            );
            assert(OpCode::JumpNotTruthy.accepts(seq![else_at as usize]));
            assert(OpCode::Jump.accepts(seq![end]));
            lemma_well_formed_instruction(OpCode::JumpNotTruthy, seq![else_at as usize]);
            lemma_well_formed_instruction(OpCode::Jump, seq![end]);
            lemma_well_formed_concat(cond.code, jump_not_truthy);
            lemma_well_formed_concat(cond.code + jump_not_truthy, then_code);
            lemma_well_formed_concat(cond.code + jump_not_truthy + then_code, jump);
            lemma_well_formed_concat(cond.code + jump_not_truthy + then_code + jump, else_code);
        },
    }
}

/// The code of a statement is complete instructions from start to end,
/// and so is what is left of it when the `Pop` that ends it is taken away.
pub proof fn lemma_statement_well_formed(s: Statement, base: nat, pool: nat)
    requires
        compile_statement(s, base, pool) is Ok,
    ensures
        well_formed(compile_statement(s, base, pool)->Ok_0.code),
        well_formed(without_trailing_pop(compile_statement(s, base, pool)->Ok_0.code)),
    decreases s, 0int,
{
    match s {
        Statement::Expr(e) => {
            let value = compile_expression(e, base, pool)->Ok_0;
            let pop = encode(OpCode::Pop, Seq::empty());
            lemma_expression_well_formed(e, base, pool);
            lemma_encode_plain(OpCode::Pop);
            lemma_well_formed_instruction(OpCode::Pop, Seq::empty());
            lemma_well_formed_concat(value.code, pop);
            assert((value.code + pop).drop_last() =~= value.code);
        },
        Statement::Block(statements) => {
            lemma_statements_well_formed(statements@, base, pool);
        },
        Statement::Let(_, _) => {},
    }
}

/// The code of a sequence of statements is complete instructions from
/// start to end, and so is what is left of it when the `Pop` that ends it
/// is taken away.
pub proof fn lemma_statements_well_formed(statements: Seq<Statement>, base: nat, pool: nat)
    requires
        compile_statements(statements, base, pool) is Ok,
    ensures
        well_formed(compile_statements(statements, base, pool)->Ok_0.code),
        well_formed(without_trailing_pop(compile_statements(statements, base, pool)->Ok_0.code)),
    decreases statements, 0int,
{
    if statements.len() > 0 {
        let front = compile_statements(statements.drop_last(), base, pool)->Ok_0;
        let last = compile_statement(
            statements.last(),
            base + front.code.len(),
            pool + front.constants.len(),
        )->Ok_0;
        lemma_statements_well_formed(statements.drop_last(), base, pool);
        lemma_statement_well_formed(
            statements.last(),
            base + front.code.len(),
            pool + front.constants.len(),
        );
        lemma_well_formed_concat(front.code, last.code);
        if last.code.len() > 0 {
            lemma_well_formed_concat(front.code, last.code.drop_last());
            assert((front.code + last.code).drop_last() =~= front.code + last.code.drop_last());
        } else {
            assert(front.code + last.code =~= front.code);
        }
    } else {
        assert(disassemble(Seq::<u8>::empty()) is Ok);
    }
}

/// `<` compiles to what `>` compiles to with the operands exchanged.
pub proof fn lemma_less_than_is_swapped_greater_than(
    left: Expression,
    right: Expression,
    less: String,
    greater: String,
    base: nat,
    pool: nat,
)
    requires
        less@ =~= seq!['<'],
        greater@ =~= seq!['>'],
    ensures
        compile_expression(
            Expression::Infix(Box::new(left), less, Box::new(right)),
            base,
            pool,
        ) == compile_expression(
            Expression::Infix(Box::new(right), greater, Box::new(left)),
            base,
            pool,
        ),
{
    assert(less@[0] == '<');
    assert(greater@[0] == '>');
    assert(swaps_operands(less@));
    assert(!swaps_operands(greater@));
    assert(infix_opcode(less@) == Some(OpCode::GreaterThan));
    assert(infix_opcode(greater@) == Some(OpCode::GreaterThan));
}

/// The integer literals of an expression as constants, in the order in
/// which they are compiled.
pub open spec fn expression_literals(e: Expression) -> Seq<Object>
    decreases e,
{
    match e {
        Expression::IntegerLiteral(value) => seq![Object::Int(value)],
        Expression::Prefix(_, operand) => expression_literals(*operand),
        Expression::Infix(left, operator, right) => if swaps_operands(operator@) {
            expression_literals(*right) + expression_literals(*left)
        } else {
            expression_literals(*left) + expression_literals(*right)
        },
        Expression::IfExpression { condition, consequence, alternative } => expression_literals(
            *condition,
        ) + statement_literals(*consequence) + match alternative {
            Some(otherwise) => statement_literals(*otherwise),
            None => Seq::empty(),
        },
        _ => Seq::empty(),
    }
}

/// The integer literals of a statement as constants, in the order in
/// which they are compiled.
pub open spec fn statement_literals(s: Statement) -> Seq<Object>
    decreases s,
{
    match s {
        Statement::Expr(e) => expression_literals(e),
        Statement::Block(statements) => statements_literals(statements@),
        Statement::Let(_, _) => Seq::empty(),
    }
}

/// The integer literals of statements as constants, in the order in which
/// they are compiled.
pub open spec fn statements_literals(statements: Seq<Statement>) -> Seq<Object>
    decreases statements,
{
    if statements.len() == 0 {
        Seq::empty()
    } else {
        statements_literals(statements.drop_last()) + statement_literals(statements.last())
    }
}

/// Every integer literal of an expression gets a slot of its own in the
/// pool, in the order in which the literals are compiled: equal literals
/// are not merged.
pub proof fn lemma_expression_constants(e: Expression, base: nat, pool: nat)
    requires
        compile_expression(e, base, pool) is Ok,
    ensures
        compile_expression(e, base, pool)->Ok_0.constants == expression_literals(e),
    decreases e,
{
    match e {
        Expression::Prefix(operator, operand) => {
            lemma_expression_constants(*operand, base, pool);
        },
        Expression::Infix(left, operator, right) => {
            let first = if swaps_operands(operator@) {
                *right
            } else {
                *left
            };
            let second = if swaps_operands(operator@) {
                *left
            } else {
                *right
            };
            let a = compile_expression(first, base, pool)->Ok_0;
            lemma_expression_constants(first, base, pool);
            lemma_expression_constants(second, base + a.code.len(), pool + a.constants.len());
        },
        Expression::IfExpression { condition, consequence, alternative } => {
            let cond = compile_expression(*condition, base, pool)->Ok_0;
            let then_at = base + cond.code.len() + 3;
            let then_branch = compile_statement(
                *consequence,
                then_at,
                pool + cond.constants.len(),
            )->Ok_0;
            assert(compile_expression(e, base, pool) == compile_conditional(e, base, pool));
            lemma_expression_constants(*condition, base, pool);
            lemma_statement_constants(*consequence, then_at, pool + cond.constants.len());
            match alternative {
                Some(otherwise) => {
                    lemma_statement_constants(
                        *otherwise,
                        else_offset(base, cond, then_branch),
                        pool + cond.constants.len() + then_branch.constants.len(),
                    );
                },
                None => {
                    assert(cond.constants + then_branch.constants =~= cond.constants
                        + then_branch.constants + Seq::<Object>::empty());
                },
            }
        },
        _ => {},
    }
}

/// Every integer literal of a statement gets a slot of its own in the pool.
pub proof fn lemma_statement_constants(s: Statement, base: nat, pool: nat)
    requires
        compile_statement(s, base, pool) is Ok,
    ensures
        compile_statement(s, base, pool)->Ok_0.constants == statement_literals(s),
    decreases s,
{
    match s {
        Statement::Expr(e) => {
            lemma_expression_constants(e, base, pool);
        },
        Statement::Block(statements) => {
            lemma_statements_constants(statements@, base, pool);
        },
        Statement::Let(_, _) => {},
    }
}

/// Every integer literal of a program gets a slot of its own in the pool.
pub proof fn lemma_statements_constants(statements: Seq<Statement>, base: nat, pool: nat)
    requires
        compile_statements(statements, base, pool) is Ok,
    ensures
        compile_statements(statements, base, pool)->Ok_0.constants == statements_literals(
            statements,
        ),
    decreases statements,
{
    if statements.len() > 0 {
        let front = compile_statements(statements.drop_last(), base, pool)->Ok_0;
        lemma_statements_constants(statements.drop_last(), base, pool);
        lemma_statement_constants(
            statements.last(),
            base + front.code.len(),
            pool + front.constants.len(),
        );
    }
}

/// The result of a compilation: the instructions and the constants, as
/// the compiler that made them holds them.
#[derive(Debug, Clone)]
pub struct Bytecode<'compiler> {
    pub instructions: &'compiler Instructions,
    pub constants: &'compiler Vec<Object>,
}

/// An instruction that was emitted: its opcode and the offset of its tag byte.
#[derive(Debug, Clone, Copy)]
pub struct EmittedInstruction {
    pub oc: OpCode,
    pub position: usize,
}

/// The compiler: the instruction stream and the constant pool that it
/// fills, and the two instructions that it emitted last.
pub struct Compiler {
    instructions: Instructions,
    constants: Vec<Object>,
    last_instruction: Option<EmittedInstruction>,
    before_last_instruction: Option<EmittedInstruction>,
}

fn infix_opcode_of(operator: &str) -> (opcode: Option<OpCode>)
    ensures
        opcode == infix_opcode(operator@),
{
    proof {
        reveal_strlit("+");
        reveal_strlit("-");
        reveal_strlit("*");
        reveal_strlit("/");
        reveal_strlit(">");
        reveal_strlit("<");
        reveal_strlit("==");
        reveal_strlit("!=");
        assert("+"@ =~= seq!['+']);
        assert("-"@ =~= seq!['-']);
        assert("*"@ =~= seq!['*']);
        assert("/"@ =~= seq!['/']);
        assert(">"@ =~= seq!['>']);
        assert("<"@ =~= seq!['<']);
        assert("=="@ =~= seq!['=', '=']);
        assert("!="@ =~= seq!['!', '=']);
    }
    if str_eq(operator, "+") {
        Some(OpCode::Add)
    } else if str_eq(operator, "-") {
        Some(OpCode::Sub)
    } else if str_eq(operator, "*") {
        Some(OpCode::Mul)
    } else if str_eq(operator, "/") {
        Some(OpCode::Div)
    } else if str_eq(operator, ">") {
        Some(OpCode::GreaterThan)
    } else if str_eq(operator, "<") {
        Some(OpCode::GreaterThan)
    } else if str_eq(operator, "==") {
        Some(OpCode::Equal)
    } else if str_eq(operator, "!=") {
        Some(OpCode::NotEqual)
    } else {
        None
    }
}

fn prefix_opcode_of(operator: &str) -> (opcode: Option<OpCode>)
    ensures
        opcode == prefix_opcode(operator@),
{
    proof {
        reveal_strlit("-");
        reveal_strlit("!");
        assert("-"@ =~= seq!['-']);
        assert("!"@ =~= seq!['!']);
    }
    if str_eq(operator, "-") {
        Some(OpCode::Minus)
    } else if str_eq(operator, "!") {
        Some(OpCode::Bang)
    } else {
        None
    }
}

fn is_less_than(operator: &str) -> (swaps: bool)
    ensures
        swaps == swaps_operands(operator@),
{
    proof {
        reveal_strlit("<");
        assert("<"@ =~= seq!['<']);
    }
    str_eq(operator, "<")
}

impl Compiler {
    /// The instruction bytes emitted so far.
    pub closed spec fn code(&self) -> Seq<u8> {
        self.instructions@
    }

    /// The constants added so far.
    pub closed spec fn pool(&self) -> Seq<Object> {
        self.constants@
    }

    /// The instruction emitted last, if it is still in the stream.
    pub closed spec fn last(&self) -> Option<EmittedInstruction> {
        self.last_instruction
    }

    /// The instruction emitted before the last, if the compiler remembers it.
    pub closed spec fn before_last(&self) -> Option<EmittedInstruction> {
        self.before_last_instruction
    }

    /// The emission history agrees with the stream: the last instruction
    /// ends where the stream ends, and the one before it ends where the
    /// last begins.
    pub open spec fn wf(&self) -> bool {
        &&& self.last() matches Some(l) ==> l.position + l.oc.encoded_len() == self.code().len()
        &&& self.before_last() matches Some(b) ==> (self.last() matches Some(l) && b.position
            + b.oc.encoded_len() == l.position)
    }

    /// Whether the stream and the pool start with those of `before`.
    pub open spec fn grows_from(&self, before: &Compiler) -> bool {
        &&& before.code().is_prefix_of(self.code())
        &&& before.pool().is_prefix_of(self.pool())
    }

    /// Whether the stream and the pool are those of `before` with `out` behind them.
    pub open spec fn appended(&self, before: &Compiler, out: Emitted) -> bool {
        &&& self.code() == before.code() + out.code
        &&& self.pool() == before.pool() + out.constants
    }

    /// Whether the emission history is what compiling statements with
    /// the output `out` leaves of that of `before`: as it was where nothing
    /// was emitted, and else a `Pop` in the last byte of the stream.
    pub open spec fn ends_statements(&self, before: &Compiler, out: Emitted) -> bool {
        if out.code.len() == 0 {
            self.last() == before.last() && self.before_last() == before.before_last()
        } else {
            self.last() == Some(
                EmittedInstruction { oc: OpCode::Pop, position: (self.code().len() - 1) as usize },
            )
        }
    }

    /// Whether nothing differs from `before`.
    pub open spec fn unchanged(&self, before: &Compiler) -> bool {
        &&& self.code() == before.code()
        &&& self.pool() == before.pool()
        &&& self.last() == before.last()
        &&& self.before_last() == before.before_last()
    }

    pub fn new() -> (compiler: Compiler)
        ensures
            compiler.wf(),
            compiler.code() == Seq::<u8>::empty(),
            compiler.pool() == Seq::<Object>::empty(),
            compiler.last() is None,
            compiler.before_last() is None,
            well_formed(compiler.code()),
    {
        Compiler {
            instructions: Vec::new(),
            constants: Vec::new(),
            last_instruction: None,
            before_last_instruction: None,
        }
    }

    /// The instructions and the constants accumulated so far.
    pub fn bytecode(&self) -> (bytecode: Bytecode<'_>)
        ensures
            bytecode.instructions@ == self.code(),
            bytecode.constants@ == self.pool(),
    {
        Bytecode { instructions: &self.instructions, constants: &self.constants }
    }

    /// Compiles the statements of a program in order, behind what the
    /// compiler already holds. On failure the compiler is left as it was.
    pub fn compile_program(&mut self, program: &[Statement]) -> (r: Result<(), CompileError>)
        requires
            old(self).wf(),
        ensures
            final(self).wf(),
            match compile_statements(
                program@,
                old(self).code().len(),
                old(self).pool().len(),
            ) {
                Ok(out) => r is Ok && final(self).appended(old(self), out) && final(self).ends_statements(
                    old(self),
                    out,
                ),
                Err(e) => r == Err::<(), CompileError>(e) && final(self).unchanged(old(self)),
            },
            well_formed(old(self).code()) ==> well_formed(final(self).code()),
    {
        let code_len = self.instructions.len();
        let pool_len = self.constants.len();
        let last = self.last_instruction;
        let before_last = self.before_last_instruction;
        match self.compile_stmts(program) {
            Ok(()) => {
                proof {
                    let base = old(self).code().len();
                    let pool = old(self).pool().len();
                    let out = compile_statements(program@, base, pool)->Ok_0;
                    lemma_statements_well_formed(program@, base, pool);
                    if well_formed(old(self).code()) {
                        lemma_well_formed_concat(old(self).code(), out.code);
                    }
                }
                Ok(())
            },
            Err(e) => {
                self.instructions.truncate(code_len);
                self.constants.truncate(pool_len);
                self.last_instruction = last;
                self.before_last_instruction = before_last;
                assert(self.code() =~= old(self).code());
                assert(self.pool() =~= old(self).pool());
                Err(e)
            },
        }
    }

    fn compile_stmts(&mut self, statements: &[Statement]) -> (r: Result<(), CompileError>)
        requires
            old(self).wf(),
        ensures
            final(self).wf(),
            final(self).grows_from(old(self)),
            match compile_statements(
                statements@,
                old(self).code().len(),
                old(self).pool().len(),
            ) {
                Ok(out) => r is Ok && final(self).appended(old(self), out) && final(self).ends_statements(
                    old(self),
                    out,
                ),
                Err(e) => r == Err::<(), CompileError>(e),
            },
        decreases statements@, 0int,
    {
        let ghost base = self.code().len();
        let ghost pool = self.pool().len();
        let mut i: usize = 0;
        proof {
            assert(statements@.take(0).len() == 0);
            assert(self.code() =~= old(self).code() + Seq::<u8>::empty());
            assert(self.pool() =~= old(self).pool() + Seq::<Object>::empty());
        }
        while i < statements.len()
            invariant
                i <= statements.len(),
                self.wf(),
                self.grows_from(old(self)),
                base == old(self).code().len(),
                pool == old(self).pool().len(),
                compile_statements(statements@.take(i as int), base, pool) matches Ok(out)
                    && self.appended(old(self), out) && self.ends_statements(old(self), out),
            decreases statements.len() - i,
        {
            let ghost front = compile_statements(statements@.take(i as int), base, pool)->Ok_0;
            proof {
                assert(statements@.take(i as int + 1).drop_last() =~= statements@.take(i as int));
                assert(statements@.take(i as int + 1).last() == statements@[i as int]);
            }
            match self.compile_stmt(&statements[i]) {
                Ok(()) => {},
                Err(e) => {
                    proof {
                        lemma_compile_statements_error(statements@, base, pool, i as int + 1);
                    }
                    return Err(e);
                },
            }
            proof {
                let step = compile_statement(
                    statements@[i as int],
                    base + front.code.len(),
                    pool + front.constants.len(),
                )->Ok_0;
                assert(self.code() =~= old(self).code() + front.plus(step).code);
                assert(self.pool() =~= old(self).pool() + front.plus(step).constants);
            }
            i = i + 1;
        }
        proof {
            assert(statements@.take(i as int) =~= statements@);
        }
        Ok(())
    }

    fn compile_stmt(&mut self, stmt: &Statement) -> (r: Result<(), CompileError>)
        requires
            old(self).wf(),
        ensures
            final(self).wf(),
            final(self).grows_from(old(self)),
            match compile_statement(*stmt, old(self).code().len(), old(self).pool().len()) {
                Ok(out) => r is Ok && final(self).appended(old(self), out) && final(self).ends_statements(
                    old(self),
                    out,
                ),
                Err(e) => r == Err::<(), CompileError>(e),
            },
        decreases stmt, 0int,
    {
        match stmt {
            Statement::Expr(expr) => {
                self.compile_expr(expr)?;
                let ghost value = compile_expression(
                    *expr,
                    old(self).code().len(),
                    old(self).pool().len(),
                )->Ok_0;
                let operands: [Operand; 0] = [];
                proof {
                    lemma_encode_plain(OpCode::Pop);
                }
                self.emit(OpCode::Pop, &operands)?;
                proof {
                    assert(self.code() =~= old(self).code() + value.followed_by(
                        encode(OpCode::Pop, Seq::empty()),
                    ).code);
                }
                Ok(())
            },
            Statement::Block(statements) => self.compile_stmts(statements.as_slice()),
            Statement::Let(_, _) => Err(CompileError::UnsupportedStatement),
        }
    }

    fn compile_expr(&mut self, expr: &Expression) -> (r: Result<(), CompileError>)
        requires
            old(self).wf(),
        ensures
            final(self).wf(),
            final(self).grows_from(old(self)),
            match compile_expression(*expr, old(self).code().len(), old(self).pool().len()) {
                Ok(out) => r is Ok && final(self).appended(old(self), out),
                Err(e) => r == Err::<(), CompileError>(e),
            },
        decreases expr, 1int,
    {
        let ghost start = self.code();
        let ghost base = self.code().len();
        let ghost pool = self.pool().len();
        let plain: [Operand; 0] = [];
        proof {
            assert(plain@ =~= Seq::<usize>::empty());
        }
        match expr {
            Expression::IntegerLiteral(value) => {
                let index = self.add_constant(Object::Int(*value));
                let operands: [Operand; 1] = [index];
                proof {
                    assert(operands@ =~= seq![index]);
                    assert(OpCode::Constant.accepts(operands@) <==> index <= MAX_OPERAND) by {
                        if index <= MAX_OPERAND {
                            assert(OpCode::Constant.accepts(operands@));
                        } else {
                            assert(operands@[0] > MAX_OPERAND);
                        }
                    }
                }
                self.emit(OpCode::Constant, &operands)?;
                assert(self.pool() =~= old(self).pool() + seq![Object::Int(*value)]);
                Ok(())
            },
            Expression::Bool(value) => {
                if *value {
                    self.emit(OpCode::True, &plain)?;
                } else {
                    self.emit(OpCode::False, &plain)?;
                }
                assert(self.pool() =~= old(self).pool() + Seq::<Object>::empty());
                Ok(())
            },
            Expression::Prefix(operator, operand) => {
                self.compile_expr(operand)?;
                let ghost inner = compile_expression(**operand, base, pool)->Ok_0;
                match prefix_opcode_of(operator.as_str()) {
                    None => Err(CompileError::UnknownOperator),
                    Some(opcode) => {
                        self.emit(opcode, &plain)?;
                        assert(self.code() =~= start + inner.followed_by(
                            encode(opcode, Seq::empty()),
                        ).code);
                        Ok(())
                    },
                }
            },
            Expression::Infix(left, operator, right) => {
                let swaps = is_less_than(operator.as_str());
                let ghost first = if swaps {
                    **right
                } else {
                    **left
                };
                let ghost second = if swaps {
                    **left
                } else {
                    **right
                };
                if swaps {
                    self.compile_expr(right)?;
                } else {
                    self.compile_expr(left)?;
                }
                let ghost a = compile_expression(first, base, pool)->Ok_0;
                if swaps {
                    self.compile_expr(left)?;
                } else {
                    self.compile_expr(right)?;
                }
                let ghost b = compile_expression(
                    second,
                    base + a.code.len(),
                    pool + a.constants.len(),
                )->Ok_0;
                assert(self.code() =~= start + a.plus(b).code);
                assert(self.pool() =~= old(self).pool() + a.plus(b).constants);
                match infix_opcode_of(operator.as_str()) {
                    None => Err(CompileError::UnknownOperator),
                    Some(opcode) => {
                        self.emit(opcode, &plain)?;
                        assert(self.code() =~= start + a.plus(b).followed_by(
                            encode(opcode, Seq::empty()),
                        ).code);
                        Ok(())
                    },
                }
            },
            Expression::IfExpression { condition, consequence, alternative } => {
                self.compile_conditional(condition, consequence, alternative, Ghost(*expr))
            },
            Expression::Identifier(_) => Err(CompileError::UnsupportedExpression),
        }
    }

    /// Compiles a conditional: the condition, a conditional jump over the
    /// consequence, the consequence and, where there is an alternative, a
    /// jump over it and the alternative. Each jump is emitted with a
    /// placeholder and patched once its target is known.
    #[verifier::rlimit(40)]
    fn compile_conditional(
        &mut self,
        condition: &Expression,
        consequence: &Statement,
        alternative: &Option<Box<Statement>>,
        Ghost(whole): Ghost<Expression>,
    ) -> (r: Result<(), CompileError>)
        requires
            old(self).wf(),
            whole matches Expression::IfExpression {
                condition: c,
                consequence: s,
                alternative: a,
            } && *c == *condition && *s == *consequence && a == *alternative,
        ensures
            final(self).wf(),
            final(self).grows_from(old(self)),
            match compile_conditional(whole, old(self).code().len(), old(self).pool().len()) {
                Ok(out) => r is Ok && final(self).appended(old(self), out),
                Err(e) => r == Err::<(), CompileError>(e),
            },
        decreases whole, 0int,
    {
        let ghost start = self.code();
        let ghost base = self.code().len();
        let ghost pool = self.pool().len();
        self.compile_expr(condition)?;
        let ghost cond = compile_expression(*condition, base, pool)->Ok_0;
        let placeholder: [Operand; 1] = [MAX_OPERAND];
        proof {
            assert(placeholder@ =~= seq![MAX_OPERAND]);
            assert(OpCode::JumpNotTruthy.accepts(placeholder@));
            assert(OpCode::Jump.accepts(placeholder@));
            lemma_encode_one(OpCode::JumpNotTruthy, MAX_OPERAND);
            lemma_encode_one(OpCode::Jump, MAX_OPERAND);
        }
        let jump_not_truthy = self.emit(OpCode::JumpNotTruthy, &placeholder)?;
        self.compile_branch(consequence)?;
        let ghost then_branch = compile_statement(
            *consequence,
            base + cond.code.len() + 3,
            pool + cond.constants.len(),
        )->Ok_0;
        let ghost then_code = without_trailing_pop(then_branch.code);
        let ghost jump_over_then = encode(OpCode::JumpNotTruthy, seq![MAX_OPERAND]);
        assert(self.code() =~= (start + cond.code) + jump_over_then + then_code);
        assert(self.pool() =~= old(self).pool() + (cond.constants + then_branch.constants));
        match alternative {
            None => {
                let end = self.instructions.len();
                proof {
                    lemma_patch(
                        start + cond.code,
                        OpCode::JumpNotTruthy,
                        MAX_OPERAND,
                        end,
                        then_code,
                    );
                }
                self.change_operand(jump_not_truthy, end)?;
                assert(self.code() =~= start + (cond.code + encode(
                    OpCode::JumpNotTruthy,
                    seq![end],
                ) + then_code));
                Ok(())
            },
            Some(otherwise) => {
                let jump = self.emit(OpCode::Jump, &placeholder)?;
                let else_at = self.instructions.len();
                let ghost jump_over_else = encode(OpCode::Jump, seq![MAX_OPERAND]);
                proof {
                    assert(self.code() =~= (start + cond.code) + jump_over_then + (then_code
                        + jump_over_else));
                    lemma_patch(
                        start + cond.code,
                        OpCode::JumpNotTruthy,
                        MAX_OPERAND,
                        else_at,
                        then_code + jump_over_else,
                    );
                }
                self.change_operand(jump_not_truthy, else_at)?;
                let ghost front = start + cond.code + encode(
                    OpCode::JumpNotTruthy,
                    seq![else_at],
                ) + then_code;
                assert(self.code() =~= front + jump_over_else);
                self.compile_branch(otherwise)?;
                let ghost else_branch = compile_statement(
                    **otherwise,
                    else_at as nat,
                    pool + cond.constants.len() + then_branch.constants.len(),
                )->Ok_0;
                let ghost else_code = without_trailing_pop(else_branch.code);
                let end = self.instructions.len();
                proof {
                    assert(self.code() =~= front + jump_over_else + else_code);
                    lemma_patch(front, OpCode::Jump, MAX_OPERAND, end, else_code);
                }
                self.change_operand(jump, end)?;
                assert(self.code() =~= start + (cond.code + encode(
                    OpCode::JumpNotTruthy,
                    seq![else_at],
                ) + then_code + encode(OpCode::Jump, seq![end]) + else_code));
                assert(self.pool() =~= old(self).pool() + (cond.constants
                    + then_branch.constants + else_branch.constants));
                Ok(())
            },
        }
    }

    /// Compiles the block of a branch, which comes behind a jump, and takes
    /// the `Pop` that ends it out again, so that the value of the block
    /// stays on the stack.
    fn compile_branch(&mut self, block: &Statement) -> (r: Result<(), CompileError>)
        requires
            old(self).wf(),
            old(self).last() matches Some(l) && l.oc != OpCode::Pop,
        ensures
            final(self).wf(),
            final(self).grows_from(old(self)),
            match compile_statement(*block, old(self).code().len(), old(self).pool().len()) {
                Ok(out) => {
                    &&& r is Ok
                    &&& final(self).code() == old(self).code() + without_trailing_pop(out.code)
                    &&& final(self).pool() == old(self).pool() + out.constants
                },
                Err(e) => r == Err::<(), CompileError>(e),
            },
        decreases block, 1int,
    {
        self.compile_stmt(block)?;
        let ghost out = compile_statement(
            *block,
            old(self).code().len(),
            old(self).pool().len(),
        )->Ok_0;
        if self.last_instruction_is_pop() {
            self.remove_last_pop();
            assert(self.code() =~= old(self).code() + without_trailing_pop(out.code));
        }
        Ok(())
    }

    /// Appends a constant to the pool and gives its index. Equal constants
    /// get a slot each.
    fn add_constant(&mut self, obj: Object) -> (index: usize)
        ensures
            index == old(self).pool().len(),
            final(self).pool() == old(self).pool().push(obj),
            final(self).code() == old(self).code(),
            final(self).last() == old(self).last(),
            final(self).before_last() == old(self).before_last(),
    {
        self.constants.push(obj);
        self.constants.len() - 1
    }

    /// Appends an instruction and records it as the last one emitted.
    /// Gives the offset at which it starts.
    fn emit(&mut self, oc: OpCode, operands: &[Operand]) -> (r: Result<usize, CompileError>)
        requires
            old(self).wf(),
        ensures
            final(self).wf(),
            oc.accepts(operands@) ==> {
                &&& r == Ok::<usize, CompileError>(old(self).code().len() as usize)
                &&& final(self).code() == old(self).code() + encode(oc, operands@)
                &&& final(self).pool() == old(self).pool()
                &&& final(self).last() == Some(
                    EmittedInstruction { oc, position: old(self).code().len() as usize },
                )
                &&& final(self).before_last() == old(self).last()
            },
            !oc.accepts(operands@) ==> r == Err::<usize, CompileError>(
                CompileError::OperandTooLarge,
            ) && final(self).unchanged(old(self)),
    {
        if !oc.check_operands(operands) {
            return Err(CompileError::OperandTooLarge);
        }
        let ins = oc.make(operands);
        let pos = self.add_instruction(ins.as_slice());
        let last = EmittedInstruction { oc, position: pos };
        self.before_last_instruction = self.last_instruction;
        self.last_instruction = Some(last);
        Ok(pos)
    }

    /// Appends bytes to the stream and gives the offset at which they start.
    fn add_instruction(&mut self, instructions: &[u8]) -> (pos: usize)
        ensures
            pos == old(self).code().len(),
            final(self).code() == old(self).code() + instructions@,
            final(self).pool() == old(self).pool(),
            final(self).last() == old(self).last(),
            final(self).before_last() == old(self).before_last(),
    {
        let pos = self.instructions.len();
        let mut i: usize = 0;
        while i < instructions.len()
            invariant
                i <= instructions.len(),
                self.instructions@ == old(self).instructions@ + instructions@.take(i as int),
                self.constants == old(self).constants,
                self.last_instruction == old(self).last_instruction,
                self.before_last_instruction == old(self).before_last_instruction,
            decreases instructions.len() - i,
        {
            self.instructions.push(instructions[i]);
            assert(self.instructions@ =~= old(self).instructions@ + instructions@.take(
                i as int + 1,
            ));
            i = i + 1;
        }
        assert(instructions@.take(i as int) =~= instructions@);
        pos
    }

    /// Overwrites the operand of the jump at `position` with `operand`.
    fn change_operand(&mut self, position: usize, operand: Operand) -> (r: Result<
        (),
        CompileError,
    >)
        requires
            old(self).wf(),
            position + 3 <= old(self).code().len(),
        ensures
            final(self).wf(),
            final(self).pool() == old(self).pool(),
            final(self).last() == old(self).last(),
            final(self).before_last() == old(self).before_last(),
            operand <= MAX_OPERAND ==> r is Ok && final(self).code() == with_operand(
                old(self).code(),
                position as int,
                operand,
            ),
            operand > MAX_OPERAND ==> r == Err::<(), CompileError>(CompileError::OperandTooLarge)
                && final(self).code() == old(self).code(),
    {
        if operand > MAX_OPERAND {
            return Err(CompileError::OperandTooLarge);
        }
        assert(position + 3 <= self.instructions.len());
        self.instructions[position + 1] = (operand / 256) as u8;
        self.instructions[position + 2] = (operand % 256) as u8;
        assert(self.code() =~= with_operand(old(self).code(), position as int, operand));
        Ok(())
    }

    fn last_instruction_is_pop(&self) -> (is_pop: bool)
        ensures
            is_pop == (self.last() matches Some(l) && l.oc == OpCode::Pop),
    {
        match &self.last_instruction {
            Some(emitted) => match emitted.oc {
                OpCode::Pop => true,
                _ => false,
            },
            None => false,
        }
    }

    /// Takes the `Pop` that was emitted last out of the stream again.
    fn remove_last_pop(&mut self)
        requires
            old(self).wf(),
            old(self).last() matches Some(l) && l.oc == OpCode::Pop,
        ensures
            final(self).wf(),
            final(self).code() == old(self).code().drop_last(),
            final(self).pool() == old(self).pool(),
            final(self).last() == old(self).before_last(),
            final(self).before_last() is None,
    {
        let pos = match &self.last_instruction {
            Some(emitted) => emitted.position,
            None => 0,
        };
        proof {
            lemma_encode_plain(OpCode::Pop);
        }
        self.instructions.truncate(pos);
        self.last_instruction = self.before_last_instruction;
        self.before_last_instruction = None;
        assert(self.code() =~= old(self).code().drop_last());
    }
}

} // verus!
