use stackvm::colorize::{blue, orange, red};
use stackvm::globals::{
    DataTypes, ErrorKind, Fault, IfElse, Instruction, Instructions, OpCodes, Operation, While,
};
use stackvm::parser::Parser;
use stackvm::runtime::{Halt, Output, Program};
use stackvm::serialize::to_tokens;

const FILE: &str = "main.mars";

fn op(code: OpCodes) -> Operation {
    Operation::new(code, 1)
}

fn ident(name: &str) -> Operation {
    op(OpCodes::IDENTIFIER(name.to_string()))
}

fn parse(ops: Vec<Operation>) -> Result<Vec<Instruction>, Fault> {
    Parser::new(ops, FILE.to_string()).parse()
}

fn run(ops: Vec<Operation>) -> (Program, Result<(), Halt>) {
    let code = parse(ops).expect("the program parses");
    let mut p = Program::with_salt(code, FILE.to_string(), "private".to_string());
    let r = p.simulate();
    (p, r)
}

fn fault_kind(r: Result<(), Halt>) -> ErrorKind {
    match r {
        Err(Halt::Fail(f)) => f.kind,
        other => panic!("expected a fault, got {:?}", other),
    }
}

fn outputs(p: &Program) -> Vec<Output> {
    p.output().clone()
}

#[test]
fn arithmetic_operand_order() {
    let (p, r) = run(vec![op(OpCodes::PUSH(5)), op(OpCodes::PUSH(3)), op(OpCodes::SUB)]);
    assert!(r.is_ok());
    assert_eq!(p.active_stack(), &vec![DataTypes::INT(2)]);
}

#[test]
fn arithmetic_results() {
    let cases: Vec<(OpCodes, u8, u8, u8)> = vec![
        (OpCodes::ADD, 200, 100, 44),
        (OpCodes::SUB, 3, 5, 254),
        (OpCodes::MULT, 16, 17, 16),
        (OpCodes::DIV, 7, 2, 3),
        (OpCodes::EQ, 4, 4, 1),
        (OpCodes::LT, 3, 5, 1),
        (OpCodes::GT, 3, 5, 0),
    ];
    for (code, a, b, want) in cases {
        let (p, r) = run(vec![op(OpCodes::PUSH(a)), op(OpCodes::PUSH(b)), op(code)]);
        assert!(r.is_ok());
        assert_eq!(p.active_stack(), &vec![DataTypes::INT(want)]);
    }
}

#[test]
fn division_by_zero_is_a_fault() {
    let (_, r) = run(vec![op(OpCodes::PUSH(1)), op(OpCodes::PUSH(0)), op(OpCodes::DIV)]);
    assert_eq!(fault_kind(r), ErrorKind::DivisionByZero);
}

fn if_program(flag: u8) -> Vec<Operation> {
    vec![
        op(OpCodes::PUSH(flag)),
        op(OpCodes::IF),
        op(OpCodes::PUSH(10)),
        op(OpCodes::PRINT),
        op(OpCodes::ELSE),
        op(OpCodes::PUSH(20)),
        op(OpCodes::PRINT),
        op(OpCodes::END),
    ]
}

#[test]
fn if_runs_exactly_one_branch() {
    let (p, r) = run(if_program(1));
    assert!(r.is_ok());
    assert_eq!(outputs(&p), vec![Output::Number(10)]);
    assert!(p.active_stack().is_empty());
    let (p, r) = run(if_program(0));
    assert!(r.is_ok());
    assert_eq!(outputs(&p), vec![Output::Number(20)]);
    let (p, r) = run(if_program(2));
    assert_eq!(fault_kind(r), ErrorKind::InvalidBoolean);
    assert!(outputs(&p).is_empty());
}

#[test]
fn nested_if_without_else() {
    let ops = vec![
        op(OpCodes::PUSH(1)),
        op(OpCodes::IF),
        op(OpCodes::PUSH(0)),
        op(OpCodes::IF),
        op(OpCodes::PUSH(1)),
        op(OpCodes::PRINT),
        op(OpCodes::END),
        op(OpCodes::PUSH(2)),
        op(OpCodes::PRINT),
        op(OpCodes::END),
    ];
    let (p, r) = run(ops);
    assert!(r.is_ok());
    assert_eq!(outputs(&p), vec![Output::Number(2)]);
}

#[test]
fn while_runs_body_n_times() {
    // @i 0 def  while i 3 < do i print @i i 1 + def end
    let ops = vec![
        op(OpCodes::VARDECLARE("i".to_string())),
        op(OpCodes::PUSH(0)),
        op(OpCodes::DEFINE),
        op(OpCodes::WHILE),
        ident("i"),
        op(OpCodes::PUSH(3)),
        op(OpCodes::LT),
        op(OpCodes::DO),
        ident("i"),
        op(OpCodes::PRINT),
        op(OpCodes::VARDECLARE("i".to_string())),
        ident("i"),
        op(OpCodes::PUSH(1)),
        op(OpCodes::ADD),
        op(OpCodes::DEFINE),
        op(OpCodes::END),
    ];
    let (p, r) = run(ops);
    assert!(r.is_ok());
    assert_eq!(outputs(&p), vec![Output::Number(0), Output::Number(1), Output::Number(2)]);
    assert!(p.active_stack().is_empty());
}

#[test]
fn while_with_false_condition_skips_body() {
    let ops = vec![
        op(OpCodes::WHILE),
        op(OpCodes::PUSH(0)),
        op(OpCodes::DO),
        op(OpCodes::PUSH(9)),
        op(OpCodes::PRINT),
        op(OpCodes::END),
    ];
    let (p, r) = run(ops);
    assert!(r.is_ok());
    assert!(outputs(&p).is_empty());
}

#[test]
fn procedure_local_does_not_leak() {
    // @x 5 def  procedure f do @x 9 def x print end  f  x print
    let ops = vec![
        op(OpCodes::VARDECLARE("x".to_string())),
        op(OpCodes::PUSH(5)),
        op(OpCodes::DEFINE),
        op(OpCodes::PROCEDURE),
        ident("f"),
        op(OpCodes::DO),
        op(OpCodes::VARDECLARE("x".to_string())),
        op(OpCodes::PUSH(9)),
        op(OpCodes::DEFINE),
        ident("x"),
        op(OpCodes::PRINT),
        op(OpCodes::END),
        ident("f"),
        ident("x"),
        op(OpCodes::PRINT),
    ];
    let (p, r) = run(ops);
    assert!(r.is_ok());
    assert_eq!(outputs(&p), vec![Output::Number(9), Output::Number(5)]);
}

#[test]
fn parameter_shadows_variable_for_the_call_only() {
    // @x 5 def  procedure g in x do x print end  7 g  x print
    let ops = vec![
        op(OpCodes::VARDECLARE("x".to_string())),
        op(OpCodes::PUSH(5)),
        op(OpCodes::DEFINE),
        op(OpCodes::PROCEDURE),
        ident("g"),
        op(OpCodes::IN),
        ident("x"),
        op(OpCodes::DO),
        ident("x"),
        op(OpCodes::PRINT),
        op(OpCodes::END),
        op(OpCodes::PUSH(7)),
        ident("g"),
        ident("x"),
        op(OpCodes::PRINT),
    ];
    let (p, r) = run(ops);
    assert!(r.is_ok());
    assert_eq!(outputs(&p), vec![Output::Number(7), Output::Number(5)]);
    assert!(p.active_stack().is_empty());
}

#[test]
fn procedure_can_be_called_twice_and_returns_to_main() {
    // procedure two do 2 print end  two two stack_size
    let ops = vec![
        op(OpCodes::PROCEDURE),
        ident("two"),
        op(OpCodes::DO),
        op(OpCodes::PUSH(2)),
        op(OpCodes::PRINT),
        op(OpCodes::END),
        ident("two"),
        ident("two"),
        op(OpCodes::STACKSIZE),
    ];
    let (p, r) = run(ops);
    assert!(r.is_ok());
    assert_eq!(outputs(&p), vec![Output::Number(2), Output::Number(2)]);
    assert_eq!(p.active_stack(), &vec![DataTypes::INT(0)]);
    assert_eq!(p.live_stacks(), vec!["main".to_string()]);
}

#[test]
fn private_stack_gets_a_random_name() {
    // procedure show do stacks end  show
    let ops = vec![
        op(OpCodes::PROCEDURE),
        ident("show"),
        op(OpCodes::DO),
        op(OpCodes::STACKS),
        op(OpCodes::END),
        ident("show"),
    ];
    let code = parse(ops).unwrap();
    let mut p = Program::new(code, FILE.to_string());
    assert!(p.simulate().is_ok());
    let out = outputs(&p);
    assert_eq!(out.len(), 3);
    assert_eq!(out[0], Output::StacksHeader);
    assert_eq!(out[1], Output::StackName("main".to_string()));
    match &out[2] {
        Output::StackName(n) => {
            assert_eq!(n.len(), 10);
            assert!(n.chars().all(|c| c.is_ascii_alphanumeric()));
        },
        other => panic!("unexpected {:?}", other),
    }
}

#[test]
fn spawn_switch_and_close() {
    let ops = vec![
        op(OpCodes::SPAWN("foo".to_string())),
        op(OpCodes::STACK("foo".to_string())),
        op(OpCodes::SWITCH),
        op(OpCodes::PUSH(7)),
        op(OpCodes::STACKSIZE),
    ];
    let (p, r) = run(ops);
    assert!(r.is_ok());
    assert_eq!(p.active_stack(), &vec![DataTypes::INT(7), DataTypes::INT(1)]);

    let ops = vec![
        op(OpCodes::SPAWN("foo".to_string())),
        op(OpCodes::STACK("foo".to_string())),
        op(OpCodes::SWITCH),
        op(OpCodes::PUSH(7)),
        op(OpCodes::STACK("main".to_string())),
        op(OpCodes::SWITCH),
        op(OpCodes::STACKS),
        op(OpCodes::STACK("foo".to_string())),
        op(OpCodes::CLOSE),
        op(OpCodes::STACKS),
    ];
    let (p, r) = run(ops);
    assert!(r.is_ok());
    assert_eq!(
        outputs(&p),
        vec![
            Output::StacksHeader,
            Output::StackName("main".to_string()),
            Output::StackName("foo".to_string()),
            Output::StacksHeader,
            Output::StackName("main".to_string()),
        ]
    );
    assert_eq!(p.live_stacks(), vec!["main".to_string()]);
}

#[test]
fn closing_main_is_fatal() {
    let (_, r) = run(vec![op(OpCodes::STACK("main".to_string())), op(OpCodes::CLOSE)]);
    assert_eq!(fault_kind(r), ErrorKind::IllegalClose);
}

#[test]
fn closing_the_active_stack_is_fatal() {
    let ops = vec![
        op(OpCodes::SPAWN("foo".to_string())),
        op(OpCodes::SWITCH),
        op(OpCodes::THIS),
        op(OpCodes::CLOSE),
    ];
    let (_, r) = run(ops);
    assert_eq!(fault_kind(r), ErrorKind::IllegalClose);
}

#[test]
fn stale_handle_is_detected() {
    let ops = vec![
        op(OpCodes::SPAWN("foo".to_string())),
        op(OpCodes::DUP),
        op(OpCodes::CLOSE),
        op(OpCodes::SWITCH),
    ];
    let (_, r) = run(ops);
    assert_eq!(fault_kind(r), ErrorKind::MissingStack);
}

#[test]
fn string_literal_reads_last_character_first() {
    let name = "Hi_".to_string();
    let literal = vec![
        op(OpCodes::SPAWN(name.clone())),
        op(OpCodes::DUP),
        op(OpCodes::SWITCH),
        op(OpCodes::PUSH(b'H')),
        op(OpCodes::PUSH(b'i')),
        op(OpCodes::STACK("main".to_string())),
        op(OpCodes::SWITCH),
        op(OpCodes::STACK(name)),
    ];
    let ops = vec![
        op(OpCodes::STRING(literal)),
        op(OpCodes::SWITCH),
        op(OpCodes::PRINTASCII),
        op(OpCodes::PRINTASCII),
    ];
    let (p, r) = run(ops);
    assert!(r.is_ok());
    assert_eq!(outputs(&p), vec![Output::Char(b'i'), Output::Char(b'H')]);
}

#[test]
fn imported_declarations_are_visible() {
    let imported = vec![
        op(OpCodes::VARDECLARE("k".to_string())),
        op(OpCodes::PUSH(42)),
        op(OpCodes::DEFINE),
    ];
    let ops = vec![
        op(OpCodes::IMPORT(imported, "lib.mars".to_string())),
        ident("k"),
        op(OpCodes::PRINT),
    ];
    let code = parse(ops).unwrap();
    match &code[0].Instruction {
        Instructions::IMPORT(path, body) => {
            assert_eq!(path, "lib.mars");
            assert_eq!(body[0].file_name, "lib.mars");
        },
        other => panic!("unexpected {:?}", other),
    }
    let mut p = Program::with_salt(code, FILE.to_string(), "s".to_string());
    assert!(p.simulate().is_ok());
    assert_eq!(outputs(&p), vec![Output::Number(42)]);
}

#[test]
fn macro_runs_in_place() {
    let ops = vec![
        op(OpCodes::MACRO("twice".to_string())),
        op(OpCodes::DUP),
        op(OpCodes::ADD),
        op(OpCodes::END),
        op(OpCodes::PUSH(21)),
        ident("twice"),
    ];
    let (p, r) = run(ops);
    assert!(r.is_ok());
    assert_eq!(p.active_stack(), &vec![DataTypes::INT(42)]);
}

#[test]
fn exit_stops_with_its_code() {
    let ops = vec![op(OpCodes::PUSH(3)), op(OpCodes::EXIT), op(OpCodes::PUSH(1)), op(OpCodes::PRINT)];
    let (p, r) = run(ops);
    assert_eq!(r, Err(Halt::Exit(3)));
    assert!(outputs(&p).is_empty());
}

#[test]
fn runtime_fault_kinds() {
    let cases: Vec<(Vec<Operation>, ErrorKind)> = vec![
        (vec![op(OpCodes::POP)], ErrorKind::StackUnderflow),
        (vec![op(OpCodes::PUSH(1)), op(OpCodes::THIS), op(OpCodes::ADD)], ErrorKind::TypeMismatch),
        (vec![op(OpCodes::STACK("nowhere".to_string()))], ErrorKind::MissingStack),
        (vec![ident("nobody")], ErrorKind::UnknownIdentifier),
        (
            vec![op(OpCodes::SPAWN("a".to_string())), op(OpCodes::SPAWN("a".to_string()))],
            ErrorKind::NameCollision,
        ),
        (vec![op(OpCodes::SPAWN("print".to_string()))], ErrorKind::NameCollision),
        (vec![op(OpCodes::SPAWN("main".to_string()))], ErrorKind::NameCollision),
        (
            vec![
                op(OpCodes::VARDECLARE("v".to_string())),
                op(OpCodes::PUSH(1)),
                op(OpCodes::DEFINE),
                op(OpCodes::SPAWN("v".to_string())),
            ],
            ErrorKind::NameCollision,
        ),
        (vec![op(OpCodes::PUSH(1)), op(OpCodes::SWITCH)], ErrorKind::TypeMismatch),
    ];
    for (ops, kind) in cases {
        let (_, r) = run(ops);
        assert_eq!(fault_kind(r), kind);
    }
}

#[test]
fn out_of_fuel_stops_an_endless_loop() {
    let ops = vec![op(OpCodes::WHILE), op(OpCodes::PUSH(1)), op(OpCodes::DO), op(OpCodes::END)];
    let code = parse(ops).unwrap();
    let mut p = Program::with_salt(code, FILE.to_string(), "s".to_string());
    match p.run(1000) {
        Err(Halt::Fail(f)) => assert_eq!(f.kind, ErrorKind::OutOfFuel),
        other => panic!("unexpected {:?}", other),
    }
}

#[test]
fn parse_errors() {
    let stray_end = parse(vec![op(OpCodes::END)]).unwrap_err();
    assert_eq!(stray_end.kind, ErrorKind::UnresolvedBlock);
    let unclosed_if = parse(vec![op(OpCodes::PUSH(1)), op(OpCodes::IF), op(OpCodes::PUSH(2))]);
    assert_eq!(unclosed_if.unwrap_err().kind, ErrorKind::UnresolvedBlock);
    let while_without_do = parse(vec![op(OpCodes::WHILE), op(OpCodes::PUSH(1)), op(OpCodes::END)]);
    assert_eq!(while_without_do.unwrap_err().kind, ErrorKind::UnresolvedBlock);
    let keyword_var = parse(vec![
        op(OpCodes::VARDECLARE("dup".to_string())),
        op(OpCodes::PUSH(1)),
        op(OpCodes::DEFINE),
    ]);
    assert_eq!(keyword_var.unwrap_err().kind, ErrorKind::NameCollision);
    let no_body = parse(vec![op(OpCodes::PROCEDURE), ident("p"), op(OpCodes::END)]);
    assert_eq!(no_body.unwrap_err().kind, ErrorKind::UnresolvedBlock);
    let mut late = vec![op(OpCodes::PUSH(1))];
    late.push(Operation::new(OpCodes::ELSE, 4));
    let f = parse(late).unwrap_err();
    assert_eq!((f.kind, f.line_num, f.file_name.as_str()), (ErrorKind::UnresolvedBlock, 4, FILE));
}

#[test]
fn parser_builds_nested_nodes() {
    let code = parse(vec![
        op(OpCodes::WHILE),
        op(OpCodes::PUSH(0)),
        op(OpCodes::DO),
        op(OpCodes::PUSH(1)),
        op(OpCodes::IF),
        op(OpCodes::POP),
        op(OpCodes::END),
        op(OpCodes::END),
    ])
    .unwrap();
    let want = Instruction::new(
        Instructions::While(While::new(
            vec![Instruction::new(Instructions::PUSH(0), 1, FILE.to_string())],
            vec![
                Instruction::new(Instructions::PUSH(1), 1, FILE.to_string()),
                Instruction::new(
                    Instructions::If(IfElse::new(
                        vec![Instruction::new(Instructions::POP, 1, FILE.to_string())],
                        vec![],
                    )),
                    1,
                    FILE.to_string(),
                ),
            ],
        )),
        1,
        FILE.to_string(),
    );
    assert_eq!(code, vec![want]);
}

#[test]
fn round_trip_reproduces_the_tree() {
    let ops = vec![
        op(OpCodes::PROCEDURE),
        ident("p"),
        op(OpCodes::IN),
        ident("a"),
        ident("b"),
        op(OpCodes::DO),
        ident("a"),
        ident("b"),
        op(OpCodes::ADD),
        op(OpCodes::PRINT),
        op(OpCodes::END),
        op(OpCodes::VARDECLARE("i".to_string())),
        op(OpCodes::PUSH(0)),
        op(OpCodes::DEFINE),
        op(OpCodes::WHILE),
        ident("i"),
        op(OpCodes::PUSH(2)),
        op(OpCodes::LT),
        op(OpCodes::DO),
        op(OpCodes::PUSH(1)),
        op(OpCodes::IF),
        ident("i"),
        op(OpCodes::PRINT),
        op(OpCodes::END),
        op(OpCodes::END),
    ];
    let tree = parse(ops).unwrap();
    let again = parse(to_tokens(&tree)).unwrap();
    assert_eq!(tree, again);
}

#[test]
fn round_trip_of_scanned_source() {
    let text = "macro twice dup + end\n\"ab c\" switch stack_size print\n@v 3 twice def\nv 2 > if 1 print else 0 print end\nusing other.mars";
    let mut ops = scan(text);
    let last = ops.pop().unwrap();
    match last.OpCode {
        OpCodes::IMPORT(_, path) => {
            ops.push(Operation::new(OpCodes::IMPORT(scan("4 print"), path), last.line_num));
        },
        other => panic!("unexpected {:?}", other),
    }
    let tree = parse(ops).unwrap();
    let tokens = to_tokens(&tree);
    assert!(tokens.len() > tree.len());
    assert_eq!(parse(tokens).unwrap(), tree);
}

#[test]
fn colours_wrap_the_text() {
    assert_eq!(blue("x"), "\x1b[94mx\x1b[0m");
    assert_eq!(red("error"), "\x1b[91merror\x1b[0m");
    assert_eq!(orange("warning"), "\x1b[93mwarning\x1b[0m");
}

use stackvm::lex::Lexer;

fn scan(text: &str) -> Vec<Operation> {
    Lexer::from_text(text, FILE.to_string()).tokens().expect("the text scans")
}

fn codes(ops: &[Operation]) -> Vec<OpCodes> {
    ops.iter().map(|o| clone_code(&o.OpCode)).collect()
}

fn clone_code(c: &OpCodes) -> OpCodes {
    match c {
        OpCodes::PUSH(b) => OpCodes::PUSH(*b),
        OpCodes::IDENTIFIER(n) => OpCodes::IDENTIFIER(n.clone()),
        OpCodes::VARDECLARE(n) => OpCodes::VARDECLARE(n.clone()),
        OpCodes::SPAWN(n) => OpCodes::SPAWN(n.clone()),
        OpCodes::STACK(n) => OpCodes::STACK(n.clone()),
        OpCodes::MACRO(n) => OpCodes::MACRO(n.clone()),
        OpCodes::IMPORT(_, p) => OpCodes::IMPORT(vec![], p.clone()),
        OpCodes::STRING(_) => OpCodes::STRING(vec![]),
        OpCodes::DUP => OpCodes::DUP,
        OpCodes::ADD => OpCodes::ADD,
        OpCodes::SUB => OpCodes::SUB,
        OpCodes::DIV => OpCodes::DIV,
        OpCodes::PRINT => OpCodes::PRINT,
        OpCodes::PRINTASCII => OpCodes::PRINTASCII,
        OpCodes::IF => OpCodes::IF,
        OpCodes::ELSE => OpCodes::ELSE,
        OpCodes::END => OpCodes::END,
        OpCodes::WHILE => OpCodes::WHILE,
        OpCodes::DO => OpCodes::DO,
        OpCodes::DEFINE => OpCodes::DEFINE,
        OpCodes::SWITCH => OpCodes::SWITCH,
        OpCodes::LT => OpCodes::LT,
        other => panic!("not used here: {:?}", other),
    }
}

#[test]
fn scanner_reads_words_numbers_and_lines() {
    let ops = scan("5 3 -\n@x 7 def // note\nx print\nspawn foo stack foo switch using lib.mars");
    assert_eq!(
        codes(&ops),
        vec![
            OpCodes::PUSH(5),
            OpCodes::PUSH(3),
            OpCodes::SUB,
            OpCodes::VARDECLARE("x".to_string()),
            OpCodes::PUSH(7),
            OpCodes::DEFINE,
            OpCodes::IDENTIFIER("x".to_string()),
            OpCodes::PRINT,
            OpCodes::SPAWN("foo".to_string()),
            OpCodes::STACK("foo".to_string()),
            OpCodes::SWITCH,
            OpCodes::IMPORT(vec![], "lib.mars".to_string()),
        ]
    );
    let lines: Vec<u8> = ops.iter().map(|o| o.line_num).collect();
    assert_eq!(lines, vec![1, 1, 1, 2, 2, 2, 3, 3, 4, 4, 4, 4]);
}

#[test]
fn scanner_expands_string_literals() {
    let ops = scan("\"Hi\"");
    assert_eq!(ops.len(), 1);
    match &ops[0].OpCode {
        OpCodes::STRING(body) => {
            assert_eq!(
                codes(body),
                vec![
                    OpCodes::SPAWN("Hi_".to_string()),
                    OpCodes::DUP,
                    OpCodes::SWITCH,
                    OpCodes::PUSH(b'H'),
                    OpCodes::PUSH(b'i'),
                    OpCodes::STACK("main".to_string()),
                    OpCodes::SWITCH,
                    OpCodes::STACK("Hi_".to_string()),
                ]
            );
        },
        other => panic!("unexpected {:?}", other),
    }
}

#[test]
fn string_literal_program_prints_in_stack_order() {
    let code = Parser::new(scan("\"Hi\" switch print_ascii print_ascii"), FILE.to_string())
        .parse()
        .unwrap();
    let mut p = Program::with_salt(code, FILE.to_string(), "s".to_string());
    assert!(p.simulate().is_ok());
    assert_eq!(outputs(&p), vec![Output::Char(b'i'), Output::Char(b'H')]);
}

#[test]
fn scanner_rejects_malformed_tokens() {
    let too_big = Lexer::from_text("1\n300", FILE.to_string()).tokens().unwrap_err();
    assert_eq!((too_big.kind, too_big.line_num), (ErrorKind::InvalidToken, 2));
    let unclosed = Lexer::from_text("\"abc", FILE.to_string()).tokens().unwrap_err();
    assert_eq!(unclosed.kind, ErrorKind::InvalidToken);
}

#[test]
fn scanned_program_runs() {
    let text = "procedure add2 in a b do a b + print end\n2 3 add2\n10 4 / print";
    let code = Parser::new(scan(text), FILE.to_string()).parse().unwrap();
    let mut p = Program::with_salt(code, FILE.to_string(), "s".to_string());
    assert!(p.simulate().is_ok());
    assert_eq!(outputs(&p), vec![Output::Number(5), Output::Number(2)]);
}
