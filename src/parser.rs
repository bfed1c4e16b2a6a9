//! The structural parser: from a flat token stream to a nested instruction tree.
use vstd::prelude::*;
use crate::globals::{
    ErrorKind, Fault, FaultV, Instruction, Instructions, IfElse, Macro, NodeAt, Node, OpCodes,
    Operation, ProcedureDefine, TokAt, Tok, VariableDefine, While, instrs_view, is_reserved,
    is_reserved_name, lemma_instrs_view_push, lemma_ops_view, ops_view, strings_view,
};

verus! {

// ---------------------------------------------------------------------------
// The grammar, as spec functions over token views
// ---------------------------------------------------------------------------

/// Tokens that close a block: `end`, `else`, `do` and `def`.
pub open spec fn is_closer(t: Tok) -> bool {
    t is End || t is Else || t is Do || t is Define
}

pub open spec fn fault(kind: ErrorKind, line: u8, file: Seq<char>) -> FaultV {
    FaultV { kind, line, file }
}

pub open spec fn node_at(node: Node, line: u8, file: Seq<char>) -> NodeAt {
    NodeAt { node, line, file }
}

/// Prepends `n` to the items of a parsed block.
pub open spec fn cons_block(
    n: NodeAt,
    r: Result<(Seq<NodeAt>, int), FaultV>,
) -> Result<(Seq<NodeAt>, int), FaultV> {
    match r {
        Ok((items, end)) => Ok((seq![n] + items, end)),
        Err(e) => Err(e),
    }
}

/// The end of the run of identifier tokens that starts at `pos`.
pub open spec fn ident_run_end(ops: Seq<TokAt>, pos: int) -> int
    decreases ops.len() - pos,
{
    if 0 <= pos < ops.len() && ops[pos].tok is Ident {
        ident_run_end(ops, pos + 1)
    } else {
        pos
    }
}

/// The names of the identifier tokens in `ops[start..end]`.
pub open spec fn ident_names(ops: Seq<TokAt>, start: int, end: int) -> Seq<Seq<char>> {
    Seq::new((end - start) as nat, |i: int| ops[start + i].tok->Ident_0)
}

/// Parses items from `pos` until a closing token or the end of the stream;
/// gives the items and the position of the token that stopped the block
/// (`ops.len()` at the end of the stream).
pub open spec fn parse_block(ops: Seq<TokAt>, pos: int, file: Seq<char>) -> Result<
    (Seq<NodeAt>, int),
    FaultV,
>
    decreases ops, ops.len() - pos, 1int,
{
    if pos < 0 || pos >= ops.len() {
        Ok((Seq::empty(), ops.len() as int))
    } else if is_closer(ops[pos].tok) {
        Ok((Seq::empty(), pos))
    } else {
        match parse_item(ops, pos, file) {
            Err(e) => Err(e),
            Ok((n, next)) => {
                if pos < next <= ops.len() {
                    cons_block(n, parse_block(ops, next, file))
                } else {
                    Ok((seq![n], next))
                }
            },
        }
    }
}

/// Parses a block that must be closed by `end`; gives its items and the
/// position after the `end`.
pub open spec fn parse_until_end(ops: Seq<TokAt>, pos: int, file: Seq<char>, line: u8) -> Result<
    (Seq<NodeAt>, int),
    FaultV,
>
    decreases ops, ops.len() - pos, 2int,
{
    if pos < 0 || pos > ops.len() {
        Err(fault(ErrorKind::UnresolvedBlock, line, file))
    } else {
        match parse_block(ops, pos, file) {
            Err(e) => Err(e),
            Ok((items, e)) => {
                if e < 0 || e >= ops.len() {
                    Err(fault(ErrorKind::UnresolvedBlock, line, file))
                } else if ops[e].tok is End {
                    Ok((items, e + 1))
                } else {
                    Err(fault(ErrorKind::UnresolvedBlock, ops[e].line, file))
                }
            },
        }
    }
}

/// Parses the one item that starts at `pos`; gives it and the position after it.
pub open spec fn parse_item(ops: Seq<TokAt>, pos: int, file: Seq<char>) -> Result<
    (NodeAt, int),
    FaultV,
>
    decreases ops, ops.len() - pos, 0int,
{
    if pos < 0 || pos >= ops.len() {
        Err(fault(ErrorKind::UnresolvedBlock, 0, file))
    } else {
        let line = ops[pos].line;
        let simple = |n: Node| Ok::<(NodeAt, int), FaultV>((node_at(n, line, file), pos + 1));
        match ops[pos].tok {
            Tok::Push(b) => simple(Node::Push(b)),
            Tok::Pop => simple(Node::Pop),
            Tok::Print => simple(Node::Print),
            Tok::PrintAscii => simple(Node::PrintAscii),
            Tok::Dup => simple(Node::Dup),
            Tok::Swap => simple(Node::Swap),
            Tok::Add => simple(Node::Add),
            Tok::Sub => simple(Node::Sub),
            Tok::Mult => simple(Node::Mult),
            Tok::Div => simple(Node::Div),
            Tok::Eq => simple(Node::Eq),
            Tok::Lt => simple(Node::Lt),
            Tok::Gt => simple(Node::Gt),
            Tok::Drop(n) => simple(Node::Drop(n)),
            Tok::Ident(n) => simple(Node::Ident(n)),
            Tok::Spawn(n) => simple(Node::Spawn(n)),
            Tok::Switch => simple(Node::Switch),
            Tok::Close => simple(Node::Close),
            Tok::Stack(n) => simple(Node::Stack(n)),
            Tok::This => simple(Node::This),
            Tok::Stacks => simple(Node::Stacks),
            Tok::StackSize => simple(Node::StackSize),
            Tok::StackRev => simple(Node::StackRev),
            Tok::Exit => simple(Node::Exit),
            Tok::If => match parse_block(ops, pos + 1, file) {
                Err(e) => Err(e),
                Ok((then_items, e)) => {
                    if e <= pos || e >= ops.len() {
                        Err(fault(ErrorKind::UnresolvedBlock, line, file))
                    } else if ops[e].tok is End {
                        Ok((node_at(Node::If(then_items, Seq::empty()), line, file), e + 1))
                    } else if ops[e].tok is Else {
                        match parse_until_end(ops, e + 1, file, line) {
                            Err(f) => Err(f),
                            Ok((else_items, next)) => Ok(
                                (node_at(Node::If(then_items, else_items), line, file), next),
                            ),
                        }
                    } else {
                        Err(fault(ErrorKind::UnresolvedBlock, ops[e].line, file))
                    }
                },
            },
            Tok::While => match parse_block(ops, pos + 1, file) {
                Err(e) => Err(e),
                Ok((cond, e)) => {
                    if e <= pos || e >= ops.len() {
                        Err(fault(ErrorKind::UnresolvedBlock, line, file))
                    } else if ops[e].tok is Do {
                        match parse_until_end(ops, e + 1, file, line) {
                            Err(f) => Err(f),
                            Ok((body, next)) => Ok(
                                (node_at(Node::While(cond, body), line, file), next),
                            ),
                        }
                    } else {
                        Err(fault(ErrorKind::UnresolvedBlock, ops[e].line, file))
                    }
                },
            },
            Tok::VarDeclare(n) => match parse_block(ops, pos + 1, file) {
                Err(e) => Err(e),
                Ok((init, e)) => {
                    if e <= pos || e >= ops.len() {
                        Err(fault(ErrorKind::UnresolvedBlock, line, file))
                    } else if !(ops[e].tok is Define) {
                        Err(fault(ErrorKind::UnresolvedBlock, ops[e].line, file))
                    } else if is_reserved(n) {
                        Err(fault(ErrorKind::NameCollision, line, file))
                    } else {
                        Ok((node_at(Node::VarDeclare(n, init), line, file), e + 1))
                    }
                },
            },
            Tok::Macro(n) => match parse_until_end(ops, pos + 1, file, line) {
                Err(e) => Err(e),
                Ok((body, next)) => Ok((node_at(Node::Macro(n, body), line, file), next)),
            },
            Tok::Procedure => {
                if pos + 2 >= ops.len() || !(ops[pos + 1].tok is Ident) {
                    Err(fault(ErrorKind::UnresolvedBlock, line, file))
                } else {
                    let name = ops[pos + 1].tok->Ident_0;
                    let (args, body_start) = if ops[pos + 2].tok is In {
                        let run_end = ident_run_end(ops, pos + 3);
                        (ident_names(ops, pos + 3, run_end), run_end + 1)
                    } else {
                        (Seq::empty(), pos + 3)
                    };
                    let do_at = body_start - 1;
                    if do_at <= pos || do_at >= ops.len() || !(ops[do_at].tok is Do) {
                        Err(fault(ErrorKind::UnresolvedBlock, line, file))
                    } else {
                        match parse_until_end(ops, body_start, file, line) {
                            Err(e) => Err(e),
                            Ok((body, next)) => Ok(
                                (node_at(Node::Procedure(name, args, body), line, file), next),
                            ),
                        }
                    }
                }
            },
            Tok::Str(inner) => match parse_program(inner, file) {
                Err(e) => Err(e),
                Ok(items) => simple(Node::Str(items)),
            },
            Tok::Import(inner, path) => match parse_program(inner, path) {
                Err(e) => Err(e),
                Ok(items) => simple(Node::Import(path, items)),
            },
            _ => Err(fault(ErrorKind::UnresolvedBlock, line, file)),
        }
    }
}

/// Parses a whole token stream: every item, with no closing token left over.
pub open spec fn parse_program(ops: Seq<TokAt>, file: Seq<char>) -> Result<Seq<NodeAt>, FaultV>
    decreases ops, ops.len() + 1, 0int,
{
    match parse_block(ops, 0, file) {
        Err(e) => Err(e),
        Ok((items, e)) => {
            if 0 <= e < ops.len() {
                Err(fault(ErrorKind::UnresolvedBlock, ops[e].line, file))
            } else {
                Ok(items)
            }
        },
    }
}

// ---------------------------------------------------------------------------
// The parser
// ---------------------------------------------------------------------------

/// A token stream and the name of the file it was read from.
pub struct Parser {
    operations: Vec<Operation>,
    file: String,
}

/// The exec result of parsing a block stands for the spec result.
pub open spec fn block_matches(
    r: Result<(Vec<Instruction>, usize), Fault>,
    s: Result<(Seq<NodeAt>, int), FaultV>,
) -> bool {
    match (r, s) {
        (Ok((v, e)), Ok((sv, se))) => instrs_view(v@) == sv && e as int == se,
        (Err(f), Err(g)) => f@ == g,
        _ => false,
    }
}

pub open spec fn item_matches(
    r: Result<(Instruction, usize), Fault>,
    s: Result<(NodeAt, int), FaultV>,
) -> bool {
    match (r, s) {
        (Ok((i, e)), Ok((si, se))) => crate::globals::instr_view(i) == si && e as int == se,
        (Err(f), Err(g)) => f@ == g,
        _ => false,
    }
}

pub open spec fn program_matches(
    r: Result<Vec<Instruction>, Fault>,
    s: Result<Seq<NodeAt>, FaultV>,
) -> bool {
    match (r, s) {
        (Ok(v), Ok(sv)) => instrs_view(v@) == sv,
        (Err(f), Err(g)) => f@ == g,
        _ => false,
    }
}

/// Puts `prefix` in front of the items of a parsed block.
pub open spec fn prepend_block(
    prefix: Seq<NodeAt>,
    r: Result<(Seq<NodeAt>, int), FaultV>,
) -> Result<(Seq<NodeAt>, int), FaultV> {
    match r {
        Ok((items, end)) => Ok((prefix + items, end)),
        Err(e) => Err(e),
    }
}

fn block_fault(kind: ErrorKind, line: u8, file: &String) -> (f: Fault)
    ensures
        f@ == fault(kind, line, file@),
{
    Fault { kind, line_num: line, file_name: file.clone() }
}

fn is_closer_op(o: &Operation) -> (r: bool)
    ensures
        r == is_closer(crate::globals::op_view(*o).tok),
{
    match o.OpCode {
        OpCodes::END | OpCodes::ELSE | OpCodes::DO | OpCodes::DEFINE => true,
        _ => false,
    }
}

fn parse_block_ops(ops: &Vec<Operation>, pos: usize, file: &String) -> (r: Result<
    (Vec<Instruction>, usize),
    Fault,
>)
    requires
        pos <= ops@.len(),
    ensures
        block_matches(r, parse_block(ops_view(ops@), pos as int, file@)),
        r matches Ok((_, e)) ==> pos <= e <= ops@.len(),
    decreases ops@, ops@.len() - pos, 2int,
{
    let ghost v = ops_view(ops@);
    proof {
        lemma_ops_view(ops@);
    }
    let len = ops.len();
    let mut items: Vec<Instruction> = Vec::new();
    let mut cur: usize = pos;
    loop
        invariant
            pos <= cur <= ops@.len(),
            len == ops@.len(),
            v == ops_view(ops@),
            v.len() == ops@.len(),
            forall|i: int| 0 <= i < ops@.len() ==> #[trigger] v[i] == crate::globals::op_view(ops@[i]),
            parse_block(v, pos as int, file@) == prepend_block(
                instrs_view(items@),
                parse_block(v, cur as int, file@),
            ),
        decreases ops@.len() - cur,
    {
        if cur >= ops.len() {
            assert(instrs_view(items@) + Seq::<NodeAt>::empty() =~= instrs_view(items@));
            return Ok((items, ops.len()));
        }
        if is_closer_op(&ops[cur]) {
            assert(instrs_view(items@) + Seq::<NodeAt>::empty() =~= instrs_view(items@));
            return Ok((items, cur));
        }
        match parse_item_ops(ops, cur, file) {
            Err(e) => {
                return Err(e);
            },
            Ok((n, next)) => {
                proof {
                    let rest = parse_block(v, next as int, file@);
                    lemma_instrs_view_push(items@, n);
                    match rest {
                        Ok((s, e)) => {
                            assert(instrs_view(items@) + (seq![crate::globals::instr_view(n)] + s)
                                =~= instrs_view(items@).push(crate::globals::instr_view(n)) + s);
                        },
                        Err(_) => {},
                    }
                }
                items.push(n);
                cur = next;
            },
        }
    }
}

fn parse_until_end_ops(ops: &Vec<Operation>, pos: usize, file: &String, line: u8) -> (r: Result<
    (Vec<Instruction>, usize),
    Fault,
>)
    requires
        pos <= ops@.len(),
    ensures
        block_matches(r, parse_until_end(ops_view(ops@), pos as int, file@, line)),
        r matches Ok((_, e)) ==> pos < e <= ops@.len(),
    decreases ops@, ops@.len() - pos, 3int,
{
    proof {
        lemma_ops_view(ops@);
    }
    match parse_block_ops(ops, pos, file) {
        Err(e) => Err(e),
        Ok((items, e)) => {
            if e >= ops.len() {
                Err(block_fault(ErrorKind::UnresolvedBlock, line, file))
            } else if let OpCodes::END = ops[e].OpCode {
                Ok((items, e + 1))
            } else {
                Err(block_fault(ErrorKind::UnresolvedBlock, ops[e].line_num, file))
            }
        },
    }
}

fn simple(instr: Instructions, line: u8, file: &String, pos: usize) -> (r: Result<
    (Instruction, usize),
    Fault,
>)
    requires
        pos < usize::MAX,
    ensures
        r matches Ok((i, e)) && i.Instruction == instr && i.line_num == line && i.file_name@
            == file@ && e == pos + 1,
{
    Ok((Instruction::new(instr, line, file.clone()), pos + 1))
}

fn parse_item_ops(ops: &Vec<Operation>, pos: usize, file: &String) -> (r: Result<
    (Instruction, usize),
    Fault,
>)
    requires
        pos < ops@.len(),
    ensures
        item_matches(r, parse_item(ops_view(ops@), pos as int, file@)),
        r matches Ok((_, e)) ==> pos < e <= ops@.len(),
    decreases ops@, ops@.len() - pos, 1int,
{
    proof {
        lemma_ops_view(ops@);
    }
    let len = ops.len();
    let line = ops[pos].line_num;
    match &ops[pos].OpCode {
        OpCodes::PUSH(b) => simple(Instructions::PUSH(*b), line, file, pos),
        OpCodes::POP => simple(Instructions::POP, line, file, pos),
        OpCodes::PRINT => simple(Instructions::PRINT, line, file, pos),
        OpCodes::PRINTASCII => simple(Instructions::PRINTASCII, line, file, pos),
        OpCodes::DUP => simple(Instructions::DUP, line, file, pos),
        OpCodes::SWAP => simple(Instructions::SWAP, line, file, pos),
        OpCodes::ADD => simple(Instructions::ADD, line, file, pos),
        OpCodes::SUB => simple(Instructions::SUB, line, file, pos),
        OpCodes::MULT => simple(Instructions::MULT, line, file, pos),
        OpCodes::DIV => simple(Instructions::DIV, line, file, pos),
        OpCodes::EQ => simple(Instructions::EQ, line, file, pos),
        OpCodes::LT => simple(Instructions::LT, line, file, pos),
        OpCodes::GT => simple(Instructions::GT, line, file, pos),
        OpCodes::DROP(n) => simple(Instructions::DROP(n.clone()), line, file, pos),
        OpCodes::IDENTIFIER(n) => simple(Instructions::IDENTIFIER(n.clone()), line, file, pos),
        OpCodes::SPAWN(n) => simple(Instructions::SPAWN(n.clone()), line, file, pos),
        OpCodes::SWITCH => simple(Instructions::SWITCH, line, file, pos),
        OpCodes::CLOSE => simple(Instructions::CLOSE, line, file, pos),
        OpCodes::STACK(n) => simple(Instructions::STACK(n.clone()), line, file, pos),
        OpCodes::THIS => simple(Instructions::THIS, line, file, pos),
        OpCodes::STACKS => simple(Instructions::STACKS, line, file, pos),
        OpCodes::STACKSIZE => simple(Instructions::STACKSIZE, line, file, pos),
        OpCodes::STACKREV => simple(Instructions::STACKREV, line, file, pos),
        OpCodes::EXIT => simple(Instructions::EXIT, line, file, pos),
        OpCodes::IF => parse_if(ops, pos, file),
        OpCodes::WHILE => parse_while(ops, pos, file),
        OpCodes::VARDECLARE(n) => parse_var(ops, pos, file, n),
        OpCodes::MACRO(n) => {
            match parse_until_end_ops(ops, pos + 1, file, line) {
                Err(e) => Err(e),
                Ok((body, next)) => {
                    let m = Macro { name: n.clone(), instructions: body };
                    Ok((Instruction::new(Instructions::MACRO(m), line, file.clone()), next))
                },
            }
        },
        OpCodes::PROCEDURE => parse_procedure(ops, pos, file),
        OpCodes::STRING(inner) => {
            match parse_program_ops(inner, file) {
                Err(e) => Err(e),
                Ok(items) => simple(Instructions::STRING(items), line, file, pos),
            }
        },
        OpCodes::IMPORT(inner, path) => {
            match parse_program_ops(inner, path) {
                Err(e) => Err(e),
                Ok(items) => simple(Instructions::IMPORT(path.clone(), items), line, file, pos),
            }
        },
        _ => Err(block_fault(ErrorKind::UnresolvedBlock, line, file)),
    }
}

fn parse_if(ops: &Vec<Operation>, pos: usize, file: &String) -> (r: Result<
    (Instruction, usize),
    Fault,
>)
    requires
        pos < ops@.len(),
        ops_view(ops@)[pos as int].tok is If,
    ensures
        item_matches(r, parse_item(ops_view(ops@), pos as int, file@)),
        r matches Ok((_, e)) ==> pos < e <= ops@.len(),
    decreases ops@, ops@.len() - pos, 0int,
{
    proof {
        lemma_ops_view(ops@);
    }
    let len = ops.len();
    let line = ops[pos].line_num;
    match parse_block_ops(ops, pos + 1, file) {
        Err(e) => Err(e),
        Ok((then_items, e)) => {
            if e >= ops.len() {
                Err(block_fault(ErrorKind::UnresolvedBlock, line, file))
            } else if let OpCodes::END = ops[e].OpCode {
                let b = IfElse::new(then_items, Vec::new());
                proof {
                    assert(instrs_view(b.Else@) =~= Seq::<NodeAt>::empty());
                }
                simple(Instructions::If(b), line, file, e)
            } else if let OpCodes::ELSE = ops[e].OpCode {
                match parse_until_end_ops(ops, e + 1, file, line) {
                    Err(f) => Err(f),
                    Ok((else_items, next)) => {
                        let r = Instruction::new(
                            Instructions::If(IfElse::new(then_items, else_items)),
                            line,
                            file.clone(),
                        );
                        Ok((r, next))
                    },
                }
            } else {
                Err(block_fault(ErrorKind::UnresolvedBlock, ops[e].line_num, file))
            }
        },
    }
}

fn parse_while(ops: &Vec<Operation>, pos: usize, file: &String) -> (r: Result<
    (Instruction, usize),
    Fault,
>)
    requires
        pos < ops@.len(),
        ops_view(ops@)[pos as int].tok is While,
    ensures
        item_matches(r, parse_item(ops_view(ops@), pos as int, file@)),
        r matches Ok((_, e)) ==> pos < e <= ops@.len(),
    decreases ops@, ops@.len() - pos, 0int,
{
    proof {
        lemma_ops_view(ops@);
    }
    let len = ops.len();
    let line = ops[pos].line_num;
    match parse_block_ops(ops, pos + 1, file) {
        Err(e) => Err(e),
        Ok((cond, e)) => {
            if e >= ops.len() {
                Err(block_fault(ErrorKind::UnresolvedBlock, line, file))
            } else if let OpCodes::DO = ops[e].OpCode {
                match parse_until_end_ops(ops, e + 1, file, line) {
                    Err(f) => Err(f),
                    Ok((body, next)) => {
                        let r = Instruction::new(
                            Instructions::While(While::new(cond, body)),
                            line,
                            file.clone(),
                        );
                        Ok((r, next))
                    },
                }
            } else {
                Err(block_fault(ErrorKind::UnresolvedBlock, ops[e].line_num, file))
            }
        },
    }
}

fn parse_var(ops: &Vec<Operation>, pos: usize, file: &String, n: &String) -> (r: Result<
    (Instruction, usize),
    Fault,
>)
    requires
        pos < ops@.len(),
        ops_view(ops@)[pos as int].tok == Tok::VarDeclare(n@),
    ensures
        item_matches(r, parse_item(ops_view(ops@), pos as int, file@)),
        r matches Ok((_, e)) ==> pos < e <= ops@.len(),
    decreases ops@, ops@.len() - pos, 0int,
{
    proof {
        lemma_ops_view(ops@);
    }
    let len = ops.len();
    let line = ops[pos].line_num;
    match parse_block_ops(ops, pos + 1, file) {
        Err(e) => Err(e),
        Ok((init, e)) => {
            if e >= ops.len() {
                Err(block_fault(ErrorKind::UnresolvedBlock, line, file))
            } else if let OpCodes::DEFINE = ops[e].OpCode {
                if is_reserved_name(n) {
                    Err(block_fault(ErrorKind::NameCollision, line, file))
                } else {
                    let d = VariableDefine { name: n.clone(), instructions: init };
                    simple(Instructions::VARDECLARE(d), line, file, e)
                }
            } else {
                Err(block_fault(ErrorKind::UnresolvedBlock, ops[e].line_num, file))
            }
        },
    }
}

fn parse_procedure(ops: &Vec<Operation>, pos: usize, file: &String) -> (r: Result<
    (Instruction, usize),
    Fault,
>)
    requires
        pos < ops@.len(),
        ops_view(ops@)[pos as int].tok is Procedure,
    ensures
        item_matches(r, parse_item(ops_view(ops@), pos as int, file@)),
        r matches Ok((_, e)) ==> pos < e <= ops@.len(),
    decreases ops@, ops@.len() - pos, 0int,
{
    let ghost v = ops_view(ops@);
    proof {
        lemma_ops_view(ops@);
    }
    let len = ops.len();
    let line = ops[pos].line_num;
    if len - pos <= 2 {
        return Err(block_fault(ErrorKind::UnresolvedBlock, line, file));
    }
    assert(v[pos + 1] == crate::globals::op_view(ops@[pos + 1]));
    assert(v[pos + 2] == crate::globals::op_view(ops@[pos + 2]));
    let name = match &ops[pos + 1].OpCode {
        OpCodes::IDENTIFIER(n) => n.clone(),
        _ => {
            return Err(block_fault(ErrorKind::UnresolvedBlock, line, file));
        },
    };
    let mut args: Vec<String> = Vec::new();
    let body_start: usize;
    if let OpCodes::IN = ops[pos + 2].OpCode {
        let start: usize = pos + 3;
        let mut cur: usize = start;
        loop
            invariant
                start <= cur <= ops@.len(),
                start == pos + 3,
                len == ops@.len(),
                v == ops_view(ops@),
                v.len() == ops@.len(),
                forall|i: int| 0 <= i < ops@.len() ==> #[trigger] v[i] == crate::globals::op_view(ops@[i]),
                ident_run_end(v, start as int) == ident_run_end(v, cur as int),
                strings_view(args@) =~= ident_names(v, start as int, cur as int),
            ensures
                start <= cur <= ops@.len(),
                ident_run_end(v, start as int) == cur,
                strings_view(args@) =~= ident_names(v, start as int, cur as int),
            decreases ops@.len() - cur,
        {
            if cur >= ops.len() {
                assert(ident_run_end(v, cur as int) == cur);
                break;
            }
            match &ops[cur].OpCode {
                OpCodes::IDENTIFIER(a) => {
                    assert(v[cur as int] == crate::globals::op_view(ops@[cur as int]));
                    assert(v[cur as int].tok == Tok::Ident(a@));
                    assert(ident_run_end(v, cur as int) == ident_run_end(v, cur + 1));
                    let ghost old_args = args@;
                    args.push(a.clone());
                    assert(strings_view(args@) =~= strings_view(old_args).push(a@));
                    assert(ident_names(v, start as int, cur + 1) =~= ident_names(
                        v,
                        start as int,
                        cur as int,
                    ).push(a@));
                    cur = cur + 1;
                },
                _ => {
                    assert(v[cur as int] == crate::globals::op_view(ops@[cur as int]));
                    assert(!(v[cur as int].tok is Ident));
                    assert(ident_run_end(v, cur as int) == cur);
                    break;
                },
            }
        }
        if cur >= len {
            return Err(block_fault(ErrorKind::UnresolvedBlock, line, file));
        }
        body_start = cur + 1;
    } else {
        body_start = pos + 3;
        assert(strings_view(args@) =~= Seq::<Seq<char>>::empty());
    }
    let do_at = body_start - 1;
    if do_at >= ops.len() {
        return Err(block_fault(ErrorKind::UnresolvedBlock, line, file));
    }
    assert(v[do_at as int] == crate::globals::op_view(ops@[do_at as int]));
    if let OpCodes::DO = ops[do_at].OpCode {
        match parse_until_end_ops(ops, body_start, file, line) {
            Err(e) => Err(e),
            Ok((body, next)) => {
                let p = ProcedureDefine { name, args, instructions: body, returns: false };
                Ok((Instruction::new(Instructions::PROCEDURE(p), line, file.clone()), next))
            },
        }
    } else {
        Err(block_fault(ErrorKind::UnresolvedBlock, line, file))
    }
}

fn parse_program_ops(ops: &Vec<Operation>, file: &String) -> (r: Result<Vec<Instruction>, Fault>)
    ensures
        program_matches(r, parse_program(ops_view(ops@), file@)),
    decreases ops@, ops@.len() + 1, 0int,
{
    proof {
        lemma_ops_view(ops@);
    }
    match parse_block_ops(ops, 0, file) {
        Err(e) => Err(e),
        Ok((items, e)) => {
            if e < ops.len() {
                Err(block_fault(ErrorKind::UnresolvedBlock, ops[e].line_num, file))
            } else {
                Ok(items)
            }
        },
    }
}

impl Parser {
    pub closed spec fn tokens(&self) -> Seq<TokAt> {
        ops_view(self.operations@)
    }

    pub closed spec fn file_name(&self) -> Seq<char> {
        self.file@
    }

    pub fn new(data: Vec<Operation>, file: String) -> (r: Self)
        ensures
            r.tokens() == ops_view(data@),
            r.file_name() == file@,
    {
        Parser { operations: data, file }
    }

    /// Builds the instruction tree of the whole token stream.
    pub fn parse(&self) -> (r: Result<Vec<Instruction>, Fault>)
        ensures
            program_matches(r, parse_program(self.tokens(), self.file_name())),
    {
        parse_program_ops(&self.operations, &self.file)
    }
}

} // verus!
