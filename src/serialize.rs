//! Writing an instruction tree back to the tokens of the language.
use vstd::prelude::*;
use crate::globals::{
    Instruction, Instructions, Node, NodeAt, OpCodes, Operation, Tok, TokAt, instr_view,
    instrs_view, lemma_instrs_view, lemma_instrs_view_push, lemma_ops_view_push, op_view, ops_view,
};

verus! {

/// One token at line `l`.
pub open spec fn at(t: Tok, l: u8) -> Seq<TokAt> {
    seq![TokAt { tok: t, line: l }]
}

/// The tokens of a sequence of nodes, in the keyword surface of the language.
pub open spec fn ser_seq(ns: Seq<NodeAt>) -> Seq<TokAt>
    decreases ns,
{
    if ns.len() == 0 {
        Seq::empty()
    } else {
        ser_node(ns[0]) + ser_seq(ns.subrange(1, ns.len() as int))
    }
}

/// The parameter names of a procedure as identifier tokens.
pub open spec fn ser_args(args: Seq<Seq<char>>, l: u8) -> Seq<TokAt> {
    Seq::new(args.len(), |i: int| TokAt { tok: Tok::Ident(args[i]), line: l })
}

/// The tokens of one node; every token carries the node's line. A
/// conditional always writes its `else`, a procedure always its `in`.
pub open spec fn ser_node(x: NodeAt) -> Seq<TokAt>
    decreases x,
{
    let l = x.line;
    match x.node {
        Node::Push(b) => at(Tok::Push(b), l),
        Node::Pop => at(Tok::Pop, l),
        Node::Print => at(Tok::Print, l),
        Node::PrintAscii => at(Tok::PrintAscii, l),
        Node::Dup => at(Tok::Dup, l),
        Node::Swap => at(Tok::Swap, l),
        Node::Add => at(Tok::Add, l),
        Node::Sub => at(Tok::Sub, l),
        Node::Mult => at(Tok::Mult, l),
        Node::Div => at(Tok::Div, l),
        Node::Eq => at(Tok::Eq, l),
        Node::Lt => at(Tok::Lt, l),
        Node::Gt => at(Tok::Gt, l),
        Node::VarDeclare(n, init) => at(Tok::VarDeclare(n), l) + ser_seq(init) + at(Tok::Define, l),
        Node::Drop(n) => at(Tok::Drop(n), l),
        Node::Ident(n) => at(Tok::Ident(n), l),
        Node::If(t, e) => at(Tok::If, l) + ser_seq(t) + at(Tok::Else, l) + ser_seq(e) + at(
            Tok::End,
            l,
        ),
        Node::While(c, b) => at(Tok::While, l) + ser_seq(c) + at(Tok::Do, l) + ser_seq(b) + at(
            Tok::End,
            l,
        ),
        Node::Spawn(n) => at(Tok::Spawn(n), l),
        Node::Switch => at(Tok::Switch, l),
        Node::Close => at(Tok::Close, l),
        Node::Stack(n) => at(Tok::Stack(n), l),
        Node::This => at(Tok::This, l),
        Node::Stacks => at(Tok::Stacks, l),
        Node::StackSize => at(Tok::StackSize, l),
        Node::StackRev => at(Tok::StackRev, l),
        Node::Str(items) => at(Tok::Str(ser_seq(items)), l),
        Node::Procedure(name, args, body) => at(Tok::Procedure, l) + at(Tok::Ident(name), l) + at(
            Tok::In,
            l,
        ) + ser_args(args, l) + at(Tok::Do, l) + ser_seq(body) + at(Tok::End, l),
        Node::Macro(n, body) => at(Tok::Macro(n), l) + ser_seq(body) + at(Tok::End, l),
        Node::Import(p, items) => at(Tok::Import(ser_seq(items), p), l),
        Node::Exit => at(Tok::Exit, l),
    }
}

proof fn lemma_ops_view_append(a: Seq<Operation>, b: Seq<Operation>)
    ensures
        ops_view(a + b) == ops_view(a) + ops_view(b),
    decreases b.len(),
{
    if b.len() == 0 {
        assert(a + b =~= a);
        assert(ops_view(a) + ops_view(b) =~= ops_view(a));
    } else {
        let b0 = b.subrange(0, b.len() - 1);
        lemma_ops_view_append(a, b0);
        assert((a + b).subrange(0, (a + b).len() - 1) =~= a + b0);
        assert(ops_view(a) + ops_view(b) =~= (ops_view(a) + ops_view(b0)).push(op_view(b[b.len() - 1])));
    }
}

proof fn lemma_ser_seq_push(ns: Seq<NodeAt>, x: NodeAt)
    ensures
        ser_seq(ns.push(x)) == ser_seq(ns) + ser_node(x),
    decreases ns.len(),
{
    if ns.len() == 0 {
        assert(ns.push(x).subrange(1, 1) =~= Seq::<NodeAt>::empty());
        assert(ser_seq(ns.push(x).subrange(1, 1)) == Seq::<TokAt>::empty());
        assert(ns.push(x)[0] == x);
        assert(ser_seq(ns.push(x)) =~= ser_node(x));
        assert(ser_seq(ns) + ser_node(x) =~= ser_node(x));
    } else {
        let tail = ns.subrange(1, ns.len() as int);
        lemma_ser_seq_push(tail, x);
        assert(ns.push(x).subrange(1, ns.len() + 1int) =~= tail.push(x));
        assert(ser_node(ns[0]) + (ser_seq(tail) + ser_node(x)) =~= ser_node(ns[0]) + ser_seq(tail)
            + ser_node(x));
    }
}

/// Appends `more` to `out`, with the views to match.
fn extend(out: &mut Vec<Operation>, more: Vec<Operation>)
    ensures
        ops_view(final(out)@) == ops_view(old(out)@) + ops_view(more@),
{
    let mut more = more;
    proof {
        lemma_ops_view_append(old(out)@, more@);
    }
    out.append(&mut more);
}

fn put(out: &mut Vec<Operation>, code: OpCodes, line: u8)
    ensures
        ops_view(final(out)@) == ops_view(old(out)@) + at(op_view(Operation { OpCode: code, line_num: line }).tok, line),
{
    let o = Operation::new(code, line);
    proof {
        lemma_ops_view_push(old(out)@, o);
        assert(ops_view(old(out)@).push(op_view(o)) =~= ops_view(old(out)@) + at(op_view(o).tok, line));
    }
    out.push(o);
}

/// The tokens of an instruction sequence, in the keyword surface of the
/// language: parsing them gives the same tree back.
pub fn to_tokens(v: &Vec<Instruction>) -> (r: Vec<Operation>)
    ensures
        ops_view(r@) == ser_seq(instrs_view(v@)),
    decreases v, 1int,
{
    let mut r: Vec<Operation> = Vec::new();
    let mut k: usize = 0;
    proof {
        assert(v@.subrange(0, 0) =~= Seq::<Instruction>::empty());
        assert(ops_view(r@) =~= Seq::<TokAt>::empty());
    }
    while k < v.len()
        invariant
            k <= v@.len(),
            ops_view(r@) == ser_seq(instrs_view(v@.subrange(0, k as int))),
        decreases v@.len() - k,
    {
        let t = instr_tokens(&v[k]);
        proof {
            lemma_instrs_view_push(v@.subrange(0, k as int), v@[k as int]);
            assert(v@.subrange(0, k as int).push(v@[k as int]) =~= v@.subrange(0, k + 1));
            lemma_ser_seq_push(instrs_view(v@.subrange(0, k as int)), instr_view(v@[k as int]));
        }
        extend(&mut r, t);
        k = k + 1;
    }
    assert(v@.subrange(0, v@.len() as int) =~= v@);
    r
}

fn instr_tokens(i: &Instruction) -> (r: Vec<Operation>)
    ensures
        ops_view(r@) == ser_node(instr_view(*i)),
    decreases i, 0int,
{
    let l = i.line_num;
    let mut r: Vec<Operation> = Vec::new();
    proof {
        assert(ops_view(r@) =~= Seq::<TokAt>::empty());
        assert(Seq::<TokAt>::empty() + at(Tok::Pop, l) =~= at(Tok::Pop, l));
    }
    let ghost e = Seq::<TokAt>::empty();
    match &i.Instruction {
        Instructions::PUSH(b) => put(&mut r, OpCodes::PUSH(*b), l),
        Instructions::POP => put(&mut r, OpCodes::POP, l),
        Instructions::PRINT => put(&mut r, OpCodes::PRINT, l),
        Instructions::PRINTASCII => put(&mut r, OpCodes::PRINTASCII, l),
        Instructions::DUP => put(&mut r, OpCodes::DUP, l),
        Instructions::SWAP => put(&mut r, OpCodes::SWAP, l),
        Instructions::ADD => put(&mut r, OpCodes::ADD, l),
        Instructions::SUB => put(&mut r, OpCodes::SUB, l),
        Instructions::MULT => put(&mut r, OpCodes::MULT, l),
        Instructions::DIV => put(&mut r, OpCodes::DIV, l),
        Instructions::EQ => put(&mut r, OpCodes::EQ, l),
        Instructions::LT => put(&mut r, OpCodes::LT, l),
        Instructions::GT => put(&mut r, OpCodes::GT, l),
        Instructions::DROP(n) => put(&mut r, OpCodes::DROP(n.clone()), l),
        Instructions::IDENTIFIER(n) => put(&mut r, OpCodes::IDENTIFIER(n.clone()), l),
        Instructions::SPAWN(n) => put(&mut r, OpCodes::SPAWN(n.clone()), l),
        Instructions::SWITCH => put(&mut r, OpCodes::SWITCH, l),
        Instructions::CLOSE => put(&mut r, OpCodes::CLOSE, l),
        Instructions::STACK(n) => put(&mut r, OpCodes::STACK(n.clone()), l),
        Instructions::THIS => put(&mut r, OpCodes::THIS, l),
        Instructions::STACKS => put(&mut r, OpCodes::STACKS, l),
        Instructions::STACKSIZE => put(&mut r, OpCodes::STACKSIZE, l),
        Instructions::STACKREV => put(&mut r, OpCodes::STACKREV, l),
        Instructions::EXIT => put(&mut r, OpCodes::EXIT, l),
        Instructions::STRING(v) => put(&mut r, OpCodes::STRING(to_tokens(v)), l),
        Instructions::IMPORT(p, v) => put(&mut r, OpCodes::IMPORT(to_tokens(v), p.clone()), l),
        Instructions::VARDECLARE(d) => {
            put(&mut r, OpCodes::VARDECLARE(d.name.clone()), l);
            extend(&mut r, to_tokens(&d.instructions));
            put(&mut r, OpCodes::DEFINE, l);
        },
        Instructions::If(b) => {
            put(&mut r, OpCodes::IF, l);
            extend(&mut r, to_tokens(&b.If));
            put(&mut r, OpCodes::ELSE, l);
            extend(&mut r, to_tokens(&b.Else));
            put(&mut r, OpCodes::END, l);
        },
        Instructions::While(w) => {
            put(&mut r, OpCodes::WHILE, l);
            extend(&mut r, to_tokens(&w.Cond));
            put(&mut r, OpCodes::DO, l);
            extend(&mut r, to_tokens(&w.Contents));
            put(&mut r, OpCodes::END, l);
        },
        Instructions::MACRO(m) => {
            put(&mut r, OpCodes::MACRO(m.name.clone()), l);
            extend(&mut r, to_tokens(&m.instructions));
            put(&mut r, OpCodes::END, l);
        },
        Instructions::PROCEDURE(p) => {
            put(&mut r, OpCodes::PROCEDURE, l);
            put(&mut r, OpCodes::IDENTIFIER(p.name.clone()), l);
            put(&mut r, OpCodes::IN, l);
            let ghost head = ops_view(r@);
            let mut k: usize = 0;
            while k < p.args.len()
                invariant
                    k <= p.args@.len(),
                    ops_view(r@) == head + ser_args(
                        crate::globals::strings_view(p.args@).subrange(0, k as int),
                        l,
                    ),
                decreases p.args@.len() - k,
            {
                let ghost before = ops_view(r@);
                put(&mut r, OpCodes::IDENTIFIER(p.args[k].clone()), l);
                proof {
                    let sv = crate::globals::strings_view(p.args@);
                    assert(ser_args(sv.subrange(0, k + 1), l) =~= ser_args(sv.subrange(0, k as int), l)
                        + at(Tok::Ident(sv[k as int]), l));
                }
                k = k + 1;
            }
            proof {
                let sv = crate::globals::strings_view(p.args@);
                assert(sv.subrange(0, sv.len() as int) =~= sv);
            }
            put(&mut r, OpCodes::DO, l);
            extend(&mut r, to_tokens(&p.instructions));
            put(&mut r, OpCodes::END, l);
        },
    }
    r
}

} // verus!
