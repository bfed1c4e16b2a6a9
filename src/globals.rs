//! Tokens, instruction trees and runtime values, with their mathematical views.
use vstd::prelude::*;

verus! {

/// A token of the source language, as handed over by the scanner.
#[derive(Debug, PartialEq)]
pub enum OpCodes {
    PUSH(u8),
    POP,
    PRINT,
    PRINTASCII,
    DUP,
    SWAP,
    ADD,
    SUB,
    MULT,
    DIV,
    EQ,
    LT,
    GT,
    IF,
    ELSE,
    WHILE,
    END,
    DO,
    VARDECLARE(String),
    DEFINE,
    DROP(String),
    IDENTIFIER(String),
    SPAWN(String),
    SWITCH,
    CLOSE,
    STACK(String),
    THIS,
    STACKS,
    STACKSIZE,
    STACKREV,
    STRING(Vec<Operation>),
    PROCEDURE,
    IN,
    MACRO(String),
    IMPORT(Vec<Operation>, String),
    EXIT,
}

/// A token with the source line it was read from.
#[derive(Debug, PartialEq)]
pub struct Operation {
    pub OpCode: OpCodes,
    pub line_num: u8,
}

impl Operation {
    pub fn new(opcode: OpCodes, line_num: u8) -> (r: Self)
        ensures
            r.OpCode == opcode,
            r.line_num == line_num,
    {
        Operation { OpCode: opcode, line_num: line_num }
    }
}

/// A node of the instruction tree.
#[derive(Debug, PartialEq)]
pub enum Instructions {
    PUSH(u8),
    POP,
    PRINT,
    PRINTASCII,
    DUP,
    SWAP,
    ADD,
    SUB,
    MULT,
    DIV,
    EQ,
    LT,
    GT,
    VARDECLARE(VariableDefine),
    DROP(String),
    IDENTIFIER(String),
    If(IfElse),
    While(While),
    SPAWN(String),
    SWITCH,
    CLOSE,
    STACK(String),
    THIS,
    STACKS,
    STACKSIZE,
    STACKREV,
    STRING(Vec<Instruction>),
    PROCEDURE(ProcedureDefine),
    MACRO(Macro),
    IMPORT(String, Vec<Instruction>),
    EXIT,
}

/// An instruction node with the line and file it was parsed from.
#[derive(Debug, PartialEq)]
pub struct Instruction {
    pub Instruction: Instructions,
    pub line_num: u8,
    pub file_name: String,
}

impl Instruction {
    pub fn new(instr: Instructions, line_num: u8, file_name: String) -> (r: Self)
        ensures
            r.Instruction == instr,
            r.line_num == line_num,
            r.file_name == file_name,
    {
        Instruction { Instruction: instr, line_num: line_num, file_name }
    }
}

/// A loop: the condition runs before every check, the body while it yields 1.
#[derive(Debug, PartialEq)]
pub struct While {
    pub Cond: Vec<Instruction>,
    pub Contents: Vec<Instruction>,
}

impl While {
    pub fn new(cond: Vec<Instruction>, contents: Vec<Instruction>) -> (r: Self)
        ensures
            r.Cond == cond,
            r.Contents == contents,
    {
        While { Cond: cond, Contents: contents }
    }
}

/// A conditional with its two branches (the second may be empty).
#[derive(Debug, PartialEq)]
pub struct IfElse {
    pub If: Vec<Instruction>,
    pub Else: Vec<Instruction>,
}

impl IfElse {
    pub fn new(IfBlock: Vec<Instruction>, ElseBlock: Vec<Instruction>) -> (r: Self)
        ensures
            r.If == IfBlock,
            r.Else == ElseBlock,
    {
        IfElse { If: IfBlock, Else: ElseBlock }
    }
}

/// A variable declaration: the initializer leaves the value on the active stack.
#[derive(Debug, PartialEq)]
pub struct VariableDefine {
    pub name: String,
    pub instructions: Vec<Instruction>,
}

/// A named instruction sequence that runs in place when its name is used.
#[derive(Debug, PartialEq)]
pub struct Macro {
    pub name: String,
    pub instructions: Vec<Instruction>,
}

/// A procedure declaration with its parameter names.
#[derive(Debug, PartialEq)]
pub struct ProcedureDefine {
    pub name: String,
    pub args: Vec<String>,
    pub instructions: Vec<Instruction>,
    pub returns: bool,
}

/// A runtime value: a byte, or a handle to a named stack.
#[derive(Debug, Clone, Copy, PartialEq, Eq, Structural)]
pub enum DataTypes {
    INT(u8),
    STACKPOINTER(usize),
}

/// The kinds of fatal conditions.
#[derive(Debug, Clone, Copy, PartialEq, Eq, Structural)]
pub enum ErrorKind {
    NameCollision,
    StackUnderflow,
    TypeMismatch,
    InvalidBoolean,
    UnresolvedBlock,
    MissingStack,
    IllegalClose,
    UnknownIdentifier,
    DivisionByZero,
    InvalidToken,
    OutOfFuel,
}

/// A fatal condition with the place where it was detected.
#[derive(Debug, Clone, PartialEq)]
pub struct Fault {
    pub kind: ErrorKind,
    pub line_num: u8,
    pub file_name: String,
}

/// A fault as a plain value: kind, line and file name.
pub struct FaultV {
    pub kind: ErrorKind,
    pub line: u8,
    pub file: Seq<char>,
}

impl View for Fault {
    type V = FaultV;

    open spec fn view(&self) -> FaultV {
        FaultV { kind: self.kind, line: self.line_num, file: self.file_name@ }
    }
}

// ---------------------------------------------------------------------------
// Mathematical views of tokens and instruction trees
// ---------------------------------------------------------------------------

/// A token as a plain value.
pub enum Tok {
    Push(u8),
    Pop,
    Print,
    PrintAscii,
    Dup,
    Swap,
    Add,
    Sub,
    Mult,
    Div,
    Eq,
    Lt,
    Gt,
    If,
    Else,
    While,
    End,
    Do,
    VarDeclare(Seq<char>),
    Define,
    Drop(Seq<char>),
    Ident(Seq<char>),
    Spawn(Seq<char>),
    Switch,
    Close,
    Stack(Seq<char>),
    This,
    Stacks,
    StackSize,
    StackRev,
    Str(Seq<TokAt>),
    Procedure,
    In,
    Macro(Seq<char>),
    Import(Seq<TokAt>, Seq<char>),
    Exit,
}

/// A token and its line.
pub struct TokAt {
    pub tok: Tok,
    pub line: u8,
}

/// An instruction node as a plain value.
pub enum Node {
    Push(u8),
    Pop,
    Print,
    PrintAscii,
    Dup,
    Swap,
    Add,
    Sub,
    Mult,
    Div,
    Eq,
    Lt,
    Gt,
    VarDeclare(Seq<char>, Seq<NodeAt>),
    Drop(Seq<char>),
    Ident(Seq<char>),
    If(Seq<NodeAt>, Seq<NodeAt>),
    While(Seq<NodeAt>, Seq<NodeAt>),
    Spawn(Seq<char>),
    Switch,
    Close,
    Stack(Seq<char>),
    This,
    Stacks,
    StackSize,
    StackRev,
    Str(Seq<NodeAt>),
    Procedure(Seq<char>, Seq<Seq<char>>, Seq<NodeAt>),
    Macro(Seq<char>, Seq<NodeAt>),
    Import(Seq<char>, Seq<NodeAt>),
    Exit,
}

/// A node with the line and file it came from.
pub struct NodeAt {
    pub node: Node,
    pub line: u8,
    pub file: Seq<char>,
}

pub open spec fn strings_view(v: Seq<String>) -> Seq<Seq<char>> {
    Seq::new(v.len(), |i: int| v[i]@)
}

pub open spec fn ops_view(v: Seq<Operation>) -> Seq<TokAt>
    decreases v,
{
    if v.len() == 0 {
        Seq::empty()
    } else {
        ops_view(v.subrange(0, v.len() - 1)).push(op_view(v[v.len() - 1]))
    }
}

pub open spec fn op_view(o: Operation) -> TokAt
    decreases o,
{
    let t = match o.OpCode {
        OpCodes::PUSH(b) => Tok::Push(b),
        OpCodes::POP => Tok::Pop,
        OpCodes::PRINT => Tok::Print,
        OpCodes::PRINTASCII => Tok::PrintAscii,
        OpCodes::DUP => Tok::Dup,
        OpCodes::SWAP => Tok::Swap,
        OpCodes::ADD => Tok::Add,
        OpCodes::SUB => Tok::Sub,
        OpCodes::MULT => Tok::Mult,
        OpCodes::DIV => Tok::Div,
        OpCodes::EQ => Tok::Eq,
        OpCodes::LT => Tok::Lt,
        OpCodes::GT => Tok::Gt,
        OpCodes::IF => Tok::If,
        OpCodes::ELSE => Tok::Else,
        OpCodes::WHILE => Tok::While,
        OpCodes::END => Tok::End,
        OpCodes::DO => Tok::Do,
        OpCodes::VARDECLARE(n) => Tok::VarDeclare(n@),
        OpCodes::DEFINE => Tok::Define,
        OpCodes::DROP(n) => Tok::Drop(n@),
        OpCodes::IDENTIFIER(n) => Tok::Ident(n@),
        OpCodes::SPAWN(n) => Tok::Spawn(n@),
        OpCodes::SWITCH => Tok::Switch,
        OpCodes::CLOSE => Tok::Close,
        OpCodes::STACK(n) => Tok::Stack(n@),
        OpCodes::THIS => Tok::This,
        OpCodes::STACKS => Tok::Stacks,
        OpCodes::STACKSIZE => Tok::StackSize,
        OpCodes::STACKREV => Tok::StackRev,
        OpCodes::STRING(v) => Tok::Str(ops_view(v@)),
        OpCodes::PROCEDURE => Tok::Procedure,
        OpCodes::IN => Tok::In,
        OpCodes::MACRO(n) => Tok::Macro(n@),
        OpCodes::IMPORT(v, p) => Tok::Import(ops_view(v@), p@),
        OpCodes::EXIT => Tok::Exit,
    };
    TokAt { tok: t, line: o.line_num }
}

pub open spec fn instrs_view(v: Seq<Instruction>) -> Seq<NodeAt>
    decreases v,
{
    if v.len() == 0 {
        Seq::empty()
    } else {
        instrs_view(v.subrange(0, v.len() - 1)).push(instr_view(v[v.len() - 1]))
    }
}

pub open spec fn instr_view(i: Instruction) -> NodeAt
    decreases i,
{
    let n = match i.Instruction {
        Instructions::PUSH(b) => Node::Push(b),
        Instructions::POP => Node::Pop,
        Instructions::PRINT => Node::Print,
        Instructions::PRINTASCII => Node::PrintAscii,
        Instructions::DUP => Node::Dup,
        Instructions::SWAP => Node::Swap,
        Instructions::ADD => Node::Add,
        Instructions::SUB => Node::Sub,
        Instructions::MULT => Node::Mult,
        Instructions::DIV => Node::Div,
        Instructions::EQ => Node::Eq,
        Instructions::LT => Node::Lt,
        Instructions::GT => Node::Gt,
        Instructions::VARDECLARE(d) => Node::VarDeclare(d.name@, instrs_view(d.instructions@)),
        Instructions::DROP(n) => Node::Drop(n@),
        Instructions::IDENTIFIER(n) => Node::Ident(n@),
        Instructions::If(b) => Node::If(instrs_view(b.If@), instrs_view(b.Else@)),
        Instructions::While(w) => Node::While(instrs_view(w.Cond@), instrs_view(w.Contents@)),
        Instructions::SPAWN(n) => Node::Spawn(n@),
        Instructions::SWITCH => Node::Switch,
        Instructions::CLOSE => Node::Close,
        Instructions::STACK(n) => Node::Stack(n@),
        Instructions::THIS => Node::This,
        Instructions::STACKS => Node::Stacks,
        Instructions::STACKSIZE => Node::StackSize,
        Instructions::STACKREV => Node::StackRev,
        Instructions::STRING(v) => Node::Str(instrs_view(v@)),
        Instructions::PROCEDURE(p) => Node::Procedure(
            p.name@,
            strings_view(p.args@),
            instrs_view(p.instructions@),
        ),
        Instructions::MACRO(m) => Node::Macro(m.name@, instrs_view(m.instructions@)),
        Instructions::IMPORT(p, v) => Node::Import(p@, instrs_view(v@)),
        Instructions::EXIT => Node::Exit,
    };
    NodeAt { node: n, line: i.line_num, file: i.file_name@ }
}

pub proof fn lemma_ops_view(v: Seq<Operation>)
    ensures
        ops_view(v).len() == v.len(),
        forall|i: int| 0 <= i < v.len() ==> #[trigger] ops_view(v)[i] == op_view(v[i]),
    decreases v.len(),
{
    if v.len() > 0 {
        lemma_ops_view(v.subrange(0, v.len() - 1));
    }
}

pub proof fn lemma_instrs_view(v: Seq<Instruction>)
    ensures
        instrs_view(v).len() == v.len(),
        forall|i: int| 0 <= i < v.len() ==> #[trigger] instrs_view(v)[i] == instr_view(v[i]),
    decreases v.len(),
{
    if v.len() > 0 {
        lemma_instrs_view(v.subrange(0, v.len() - 1));
    }
}

pub proof fn lemma_ops_view_push(v: Seq<Operation>, x: Operation)
    ensures
        ops_view(v.push(x)) == ops_view(v).push(op_view(x)),
{
    assert(v.push(x).subrange(0, v.len() as int) =~= v);
}

pub proof fn lemma_instrs_view_push(v: Seq<Instruction>, x: Instruction)
    ensures
        instrs_view(v.push(x)) == instrs_view(v).push(instr_view(x)),
{
    assert(v.push(x).subrange(0, v.len() as int) =~= v);
}

/// The words that no declared name may take.
pub open spec fn reserved_words() -> Seq<Seq<char>> {
    seq![
        "print"@, "print_ascii"@, "pop"@, "push"@, "swap"@, "dup"@, "do"@, "end"@, "def"@,
        "if"@, "else"@, "while"@, "spawn"@, "switch"@, "stack"@, "this"@, "stacks"@,
        "stack_rev"@, "stack_size"@, "close"@, "macro"@,
    ]
}

pub open spec fn is_reserved(n: Seq<char>) -> bool {
    reserved_words().contains(n)
}

fn reserved_list() -> (r: Vec<String>)
    ensures
        r@.len() == reserved_words().len(),
        forall|i: int| 0 <= i < r@.len() ==> #[trigger] r@[i]@ == reserved_words()[i],
{
    let r: Vec<String> = vec![
        "print".to_owned(), "print_ascii".to_owned(), "pop".to_owned(), "push".to_owned(),
        "swap".to_owned(), "dup".to_owned(), "do".to_owned(), "end".to_owned(),
        "def".to_owned(), "if".to_owned(), "else".to_owned(), "while".to_owned(),
        "spawn".to_owned(), "switch".to_owned(), "stack".to_owned(), "this".to_owned(),
        "stacks".to_owned(), "stack_rev".to_owned(), "stack_size".to_owned(),
        "close".to_owned(), "macro".to_owned(),
    ];
    r
}

/// Whether `name` is one of the language's keywords.
pub fn is_reserved_name(name: &String) -> (r: bool)
    ensures
        r == is_reserved(name@),
{
    let words = reserved_list();
    let mut i: usize = 0;
    while i < words.len()
        invariant
            i <= words@.len(),
            words@.len() == reserved_words().len(),
            forall|j: int| 0 <= j < words@.len() ==> #[trigger] words@[j]@ == reserved_words()[j],
            forall|j: int| 0 <= j < i ==> reserved_words()[j] != name@,
        decreases words.len() - i,
    {
        if *name == words[i] {
            assert(reserved_words()[i as int] == name@);
            return true;
        }
        i = i + 1;
    }
    proof {
        if reserved_words().contains(name@) {
            let j = choose|j: int| 0 <= j < reserved_words().len() && reserved_words()[j] == name@;
            assert(reserved_words()[j] == name@);
        }
    }
    false
}

/// A copy of a list of names.
pub fn copy_strings(v: &Vec<String>) -> (r: Vec<String>)
    ensures
        r@.len() == v@.len(),
        forall|i: int| 0 <= i < v@.len() ==> #[trigger] r@[i] == v@[i],
        strings_view(r@) == strings_view(v@),
{
    let mut r: Vec<String> = Vec::new();
    let mut k: usize = 0;
    while k < v.len()
        invariant
            k <= v@.len(),
            r@.len() == k,
            forall|i: int| 0 <= i < k ==> #[trigger] r@[i] == v@[i],
        decreases v@.len() - k,
    {
        r.push(v[k].clone());
        k = k + 1;
    }
    assert(strings_view(r@) =~= strings_view(v@));
    r
}

/// A copy of an instruction sequence, node for node.
pub fn copy_instructions(v: &Vec<Instruction>) -> (r: Vec<Instruction>)
    ensures
        instrs_view(r@) == instrs_view(v@),
    decreases v, 1int,
{
    let mut r: Vec<Instruction> = Vec::new();
    let mut k: usize = 0;
    proof {
        lemma_instrs_view(v@);
    }
    while k < v.len()
        invariant
            k <= v@.len(),
            instrs_view(r@) == instrs_view(v@.subrange(0, k as int)),
        decreases v@.len() - k,
    {
        let c = copy_instruction(&v[k]);
        proof {
            lemma_instrs_view_push(r@, c);
            lemma_instrs_view_push(v@.subrange(0, k as int), v@[k as int]);
            assert(v@.subrange(0, k as int).push(v@[k as int]) =~= v@.subrange(0, k + 1));
        }
        r.push(c);
        k = k + 1;
    }
    assert(v@.subrange(0, v@.len() as int) =~= v@);
    r
}

/// A copy of an instruction, with the same view.
pub fn copy_instruction(i: &Instruction) -> (r: Instruction)
    ensures
        instr_view(r) == instr_view(*i),
    decreases i, 0int,
{
    let k = match &i.Instruction {
        Instructions::PUSH(b) => Instructions::PUSH(*b),
        Instructions::POP => Instructions::POP,
        Instructions::PRINT => Instructions::PRINT,
        Instructions::PRINTASCII => Instructions::PRINTASCII,
        Instructions::DUP => Instructions::DUP,
        Instructions::SWAP => Instructions::SWAP,
        Instructions::ADD => Instructions::ADD,
        Instructions::SUB => Instructions::SUB,
        Instructions::MULT => Instructions::MULT,
        Instructions::DIV => Instructions::DIV,
        Instructions::EQ => Instructions::EQ,
        Instructions::LT => Instructions::LT,
        Instructions::GT => Instructions::GT,
        Instructions::VARDECLARE(d) => Instructions::VARDECLARE(
            VariableDefine { name: d.name.clone(), instructions: copy_instructions(&d.instructions) },
        ),
        Instructions::DROP(n) => Instructions::DROP(n.clone()),
        Instructions::IDENTIFIER(n) => Instructions::IDENTIFIER(n.clone()),
        Instructions::If(b) => Instructions::If(
            IfElse { If: copy_instructions(&b.If), Else: copy_instructions(&b.Else) },
        ),
        Instructions::While(w) => Instructions::While(
            While { Cond: copy_instructions(&w.Cond), Contents: copy_instructions(&w.Contents) },
        ),
        Instructions::SPAWN(n) => Instructions::SPAWN(n.clone()),
        Instructions::SWITCH => Instructions::SWITCH,
        Instructions::CLOSE => Instructions::CLOSE,
        Instructions::STACK(n) => Instructions::STACK(n.clone()),
        Instructions::THIS => Instructions::THIS,
        Instructions::STACKS => Instructions::STACKS,
        Instructions::STACKSIZE => Instructions::STACKSIZE,
        Instructions::STACKREV => Instructions::STACKREV,
        Instructions::STRING(v) => Instructions::STRING(copy_instructions(v)),
        Instructions::PROCEDURE(p) => Instructions::PROCEDURE(
            ProcedureDefine {
                name: p.name.clone(),
                args: copy_strings(&p.args),
                instructions: copy_instructions(&p.instructions),
                returns: p.returns,
            },
        ),
        Instructions::MACRO(m) => Instructions::MACRO(
            Macro { name: m.name.clone(), instructions: copy_instructions(&m.instructions) },
        ),
        Instructions::IMPORT(p, v) => Instructions::IMPORT(p.clone(), copy_instructions(v)),
        Instructions::EXIT => Instructions::EXIT,
    };
    Instruction { Instruction: k, line_num: i.line_num, file_name: i.file_name.clone() }
}

} // verus!
