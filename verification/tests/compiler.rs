use monkey_compiler::ast::{Expression, Statement};
use monkey_compiler::code::{fmt_disassemble, read_instruction, OpCode};
use monkey_compiler::compiler::{CompileError, Compiler};
use monkey_compiler::lexer::Lexer;
use monkey_compiler::object::Object;
use monkey_compiler::parser::Parser;

fn parse(input: &str) -> Vec<Statement> {
    let mut lex = Lexer::new(input);
    let mut par = Parser::new(&mut lex);
    par.parse_program().unwrap().statements
}

fn compile(program: &[Statement]) -> Result<(Vec<u8>, Vec<Object>), CompileError> {
    let mut compiler = Compiler::new();
    compiler.compile_program(program)?;
    let bytecode = compiler.bytecode();
    Ok((bytecode.instructions.clone(), bytecode.constants.clone()))
}

fn listing(program: &[Statement]) -> String {
    fmt_disassemble(&compile(program).unwrap().0).unwrap()
}

fn ints(values: &[i64]) -> Vec<Object> {
    values.iter().map(|v| Object::Int(*v)).collect()
}

fn number(value: i64) -> Expression {
    Expression::IntegerLiteral(value)
}

fn infix(left: Expression, operator: &str, right: Expression) -> Expression {
    Expression::Infix(Box::new(left), operator.to_string(), Box::new(right))
}

fn block(expressions: Vec<Expression>) -> Box<Statement> {
    Box::new(Statement::Block(
        expressions.into_iter().map(Statement::Expr).collect(),
    ))
}

fn conditional(
    condition: Expression,
    consequence: Box<Statement>,
    alternative: Option<Box<Statement>>,
) -> Expression {
    Expression::IfExpression {
        condition: Box::new(condition),
        consequence,
        alternative,
    }
}

#[test]
fn a_new_compiler_holds_nothing() {
    let compiler = Compiler::new();
    let bytecode = compiler.bytecode();
    assert!(bytecode.instructions.is_empty());
    assert!(bytecode.constants.is_empty());
    assert_eq!((vec![], vec![]), compile(&[]).unwrap());
}

#[test]
fn arithmetic_compiles_operands_before_operators() {
    let (instructions, constants) = compile(&parse("1 + 2 * 3;")).unwrap();
    assert_eq!(ints(&[1, 2, 3]), constants);
    assert_eq!(vec![0u8, 0, 0, 0, 0, 1, 0, 0, 2, 4, 1, 2], instructions);
    assert_eq!(
        "0000 opcode: Constant [0]\n0003 opcode: Constant [1]\n0006 opcode: Constant [2]\n\
         0009 opcode: Mul []\n0010 opcode: Add []\n0011 opcode: Pop []\n",
        fmt_disassemble(&instructions).unwrap()
    );
}

#[test]
fn equal_constants_get_a_slot_each() {
    let (instructions, constants) = compile(&parse("5; 5;")).unwrap();
    assert_eq!(ints(&[5, 5]), constants);
    assert_eq!(vec![0u8, 0, 0, 2, 0, 0, 1, 2], instructions);
}

#[test]
fn less_than_is_greater_than_with_swapped_operands() {
    let (instructions, constants) = compile(&parse("1 < 2")).unwrap();
    assert_eq!(ints(&[2, 1]), constants);
    assert_eq!(vec![0u8, 0, 0, 0, 0, 1, 10, 2], instructions);
    assert_eq!(
        "0000 opcode: Constant [0]\n0003 opcode: Constant [1]\n\
         0006 opcode: GreaterThan []\n0007 opcode: Pop []\n",
        fmt_disassemble(&instructions).unwrap()
    );

    let (instructions, constants) = compile(&parse("1 > 2")).unwrap();
    assert_eq!(ints(&[1, 2]), constants);
    assert_eq!(vec![0u8, 0, 0, 0, 0, 1, 10, 2], instructions);
}

#[test]
fn each_operator_has_its_opcode() {
    for (operator, opcode) in [
        ("+", OpCode::Add),
        ("-", OpCode::Sub),
        ("*", OpCode::Mul),
        ("/", OpCode::Div),
        (">", OpCode::GreaterThan),
        ("<", OpCode::GreaterThan),
        ("==", OpCode::Equal),
        ("!=", OpCode::NotEqual),
    ] {
        let program = [Statement::Expr(infix(number(1), operator, number(2)))];
        let (instructions, _) = compile(&program).unwrap();
        assert_eq!(
            vec![0, 0, 0, 0, 0, 1, opcode.as_byte(), 2],
            instructions
        );
    }
    for (operator, opcode) in [("-", OpCode::Minus), ("!", OpCode::Bang)] {
        let program = [Statement::Expr(Expression::Prefix(
            operator.to_string(),
            Box::new(number(1)),
        ))];
        let (instructions, _) = compile(&program).unwrap();
        assert_eq!(vec![0, 0, 0, opcode.as_byte(), 2], instructions);
    }
}

#[test]
fn booleans_take_no_constant() {
    let (instructions, constants) = compile(&parse("true; false; !true")).unwrap();
    assert!(constants.is_empty());
    assert_eq!(vec![6u8, 2, 7, 2, 6, 12, 2], instructions);
}

#[test]
fn a_conditional_keeps_the_value_of_its_block() {
    let program = [Statement::Expr(conditional(
        Expression::Bool(true),
        block(vec![number(10)]),
        None,
    ))];
    let (instructions, constants) = compile(&program).unwrap();
    assert_eq!(ints(&[10]), constants);
    assert_eq!(vec![6u8, 13, 0, 7, 0, 0, 0, 2], instructions);
    assert_eq!(
        "0000 opcode: True []\n0001 opcode: JumpNotTruthy [7]\n\
         0004 opcode: Constant [0]\n0007 opcode: Pop []\n",
        fmt_disassemble(&instructions).unwrap()
    );
}

#[test]
fn a_conditional_jump_lands_behind_the_consequence() {
    let program = [
        Statement::Expr(number(1)),
        Statement::Expr(conditional(
            infix(number(2), "<", number(3)),
            block(vec![number(10), infix(number(20), "+", number(30))]),
            None,
        )),
        Statement::Expr(number(3333)),
    ];
    let (instructions, constants) = compile(&program).unwrap();
    assert_eq!(ints(&[1, 3, 2, 10, 20, 30, 3333]), constants);
    assert_eq!(
        "0000 opcode: Constant [0]\n0003 opcode: Pop []\n0004 opcode: Constant [1]\n\
         0007 opcode: Constant [2]\n0010 opcode: GreaterThan []\n\
         0011 opcode: JumpNotTruthy [25]\n0014 opcode: Constant [3]\n0017 opcode: Pop []\n\
         0018 opcode: Constant [4]\n0021 opcode: Constant [5]\n0024 opcode: Add []\n\
         0025 opcode: Pop []\n0026 opcode: Constant [6]\n0029 opcode: Pop []\n",
        fmt_disassemble(&instructions).unwrap()
    );
    let (opcode, operands, length) = read_instruction(&instructions[11..]).unwrap();
    assert_eq!(OpCode::JumpNotTruthy, opcode);
    assert_eq!(vec![25], operands);
    assert_eq!(3, length);
    assert_eq!(OpCode::Pop.as_byte(), instructions[25]);
}

#[test]
fn a_conditional_with_an_alternative_jumps_over_it() {
    let program = [
        Statement::Expr(conditional(
            Expression::Bool(true),
            block(vec![number(10)]),
            Some(block(vec![number(20)])),
        )),
        Statement::Expr(number(3333)),
    ];
    let (instructions, constants) = compile(&program).unwrap();
    assert_eq!(ints(&[10, 20, 3333]), constants);
    assert_eq!(
        "0000 opcode: True []\n0001 opcode: JumpNotTruthy [10]\n0004 opcode: Constant [0]\n\
         0007 opcode: Jump [13]\n0010 opcode: Constant [1]\n0013 opcode: Pop []\n\
         0014 opcode: Constant [2]\n0017 opcode: Pop []\n",
        fmt_disassemble(&instructions).unwrap()
    );
}

#[test]
fn an_empty_block_loses_no_instruction() {
    let program = [Statement::Expr(conditional(
        Expression::Bool(false),
        block(vec![]),
        None,
    ))];
    assert_eq!(
        "0000 opcode: False []\n0001 opcode: JumpNotTruthy [4]\n0004 opcode: Pop []\n",
        listing(&program)
    );
    let program = [Statement::Expr(conditional(
        Expression::Bool(false),
        block(vec![]),
        Some(block(vec![])),
    ))];
    assert_eq!(
        "0000 opcode: False []\n0001 opcode: JumpNotTruthy [7]\n0004 opcode: Jump [7]\n\
         0007 opcode: Pop []\n",
        listing(&program)
    );
}

#[test]
fn nested_conditionals_patch_their_own_jumps() {
    let inner = conditional(Expression::Bool(false), block(vec![number(1)]), None);
    let program = [Statement::Expr(conditional(
        Expression::Bool(true),
        block(vec![number(0), inner]),
        None,
    ))];
    assert_eq!(
        "0000 opcode: True []\n0001 opcode: JumpNotTruthy [15]\n0004 opcode: Constant [0]\n\
         0007 opcode: Pop []\n0008 opcode: False []\n0009 opcode: JumpNotTruthy [15]\n\
         0012 opcode: Constant [1]\n0015 opcode: Pop []\n",
        listing(&program)
    );
}

#[test]
fn blocks_compile_their_statements_in_order() {
    let program = [Statement::Block(vec![
        Statement::Expr(number(1)),
        Statement::Block(vec![]),
        Statement::Block(vec![Statement::Expr(number(2))]),
    ])];
    let (instructions, constants) = compile(&program).unwrap();
    assert_eq!(ints(&[1, 2]), constants);
    assert_eq!(vec![0u8, 0, 0, 2, 0, 0, 1, 2], instructions);
}

#[test]
fn a_second_program_goes_behind_the_first() {
    let mut compiler = Compiler::new();
    compiler.compile_program(&parse("1;")).unwrap();
    let conditional = [Statement::Expr(conditional(
        Expression::Bool(true),
        block(vec![number(2)]),
        None,
    ))];
    compiler.compile_program(&conditional).unwrap();
    let bytecode = compiler.bytecode();
    assert_eq!(&ints(&[1, 2]), bytecode.constants);
    assert_eq!(
        "0000 opcode: Constant [0]\n0003 opcode: Pop []\n0004 opcode: True []\n\
         0005 opcode: JumpNotTruthy [11]\n0008 opcode: Constant [1]\n0011 opcode: Pop []\n",
        fmt_disassemble(bytecode.instructions).unwrap()
    );
}

#[test]
fn unknown_operators_fail() {
    let program = [Statement::Expr(infix(number(1), "%", number(2)))];
    assert_eq!(Err(CompileError::UnknownOperator), compile(&program));
    let program = [Statement::Expr(Expression::Prefix(
        "+".to_string(),
        Box::new(number(1)),
    ))];
    assert_eq!(Err(CompileError::UnknownOperator), compile(&program));
    let program = [Statement::Expr(infix(number(1), "", number(2)))];
    assert_eq!(Err(CompileError::UnknownOperator), compile(&program));
}

#[test]
fn unsupported_constructs_fail() {
    assert_eq!(
        Err(CompileError::UnsupportedExpression),
        compile(&parse("foobar;"))
    );
    assert_eq!(
        Err(CompileError::UnsupportedStatement),
        compile(&parse("let x = 5;"))
    );
    assert_eq!(
        Err(CompileError::UnsupportedExpression),
        compile(&parse("1 + x * 2"))
    );
}

#[test]
fn a_failed_compilation_leaves_the_compiler_as_it_was() {
    let mut compiler = Compiler::new();
    compiler.compile_program(&parse("1; 2;")).unwrap();
    let instructions = compiler.bytecode().instructions.clone();
    let constants = compiler.bytecode().constants.clone();
    let failing = [
        Statement::Expr(number(3)),
        Statement::Expr(conditional(
            Expression::Bool(true),
            block(vec![number(4), Expression::Identifier("x".to_string())]),
            None,
        )),
    ];
    assert_eq!(
        Err(CompileError::UnsupportedExpression),
        compiler.compile_program(&failing)
    );
    assert_eq!(&instructions, compiler.bytecode().instructions);
    assert_eq!(&constants, compiler.bytecode().constants);
    compiler.compile_program(&parse("7")).unwrap();
    assert_eq!(&ints(&[1, 2, 7]), compiler.bytecode().constants);
    assert_eq!(
        vec![0u8, 0, 0, 2, 0, 0, 1, 2, 0, 0, 2, 2],
        *compiler.bytecode().instructions
    );
}

#[test]
fn the_pool_holds_as_many_constants_as_an_operand_can_name() {
    let mut program: Vec<Statement> = (0..65536).map(|i| Statement::Expr(number(i))).collect();
    let (instructions, constants) = compile(&program).unwrap();
    assert_eq!(65536, constants.len());
    assert_eq!(4 * 65536, instructions.len());
    assert_eq!([0u8, 255, 255, 2], instructions[4 * 65535..]);

    program.push(Statement::Expr(number(65536)));
    assert_eq!(Err(CompileError::OperandTooLarge), compile(&program));
}

#[test]
fn a_jump_target_must_fit_its_operand() {
    let long: Vec<Expression> = (0..16384).map(|_| Expression::Bool(true)).collect();
    let second: Vec<Expression> = long.iter().map(|_| Expression::Bool(true)).collect();
    let third: Vec<Expression> = long.iter().map(|_| Expression::Bool(true)).collect();
    let fourth: Vec<Expression> = long.iter().map(|_| Expression::Bool(true)).collect();

    let mut all = long;
    all.extend(second);
    all.extend(third);
    all.extend(fourth);
    all.truncate(32766);
    let fits = [Statement::Expr(conditional(
        Expression::Bool(true),
        block(all),
        None,
    ))];
    let (instructions, _) = compile(&fits).unwrap();
    assert_eq!(65536, instructions.len());
    assert_eq!([13u8, 255, 255], instructions[1..4]);

    let too_long: Vec<Expression> = (0..32767).map(|_| Expression::Bool(true)).collect();
    let fails = [Statement::Expr(conditional(
        Expression::Bool(true),
        block(too_long),
        None,
    ))];
    assert_eq!(Err(CompileError::OperandTooLarge), compile(&fails));
}
