//! General laws of the language, proved over the evaluator's semantics.
use vstd::prelude::*;
use crate::globals::{DataTypes, ErrorKind, Node, NodeAt, Tok, TokAt, is_reserved};
use crate::serialize::{at, ser_args, ser_node, ser_seq};
use crate::parser::{fault, ident_names, ident_run_end, is_closer, parse_block, parse_item, parse_program, parse_until_end};
use crate::runtime::{
    OutV, ProcV, Rt, StopV, arith, bind, drop_top, emit, enter, find_var, finish_var, items, leave,
    lemma_with_items, peek, push_val, run_call, run_instr, run_seq, run_while, rt_wf, step,
};

verus! {

/// A conditional runs exactly one of its branches, picked by the flag on top
/// of the active stack (1: the first, 0: the second); the branch not taken
/// has no effect at all, since the outcome is the same whatever it holds.
/// Any other flag stops the run with an invalid-boolean fault and no change.
pub proof fn lemma_if_runs_one_branch(
    s: Rt,
    t: Seq<NodeAt>,
    e: Seq<NodeAt>,
    other: Seq<NodeAt>,
    line: u8,
    file: Seq<char>,
    fuel: nat,
)
    requires
        rt_wf(s),
        items(s).len() >= 1,
        fuel >= 1,
    ensures
        peek(s, 0) == DataTypes::INT(1) ==> run_instr(
            s,
            NodeAt { node: Node::If(t, e), line, file },
            fuel,
        ) == run_seq(drop_top(s, 1), t, (fuel - 1) as nat) && run_instr(
            s,
            NodeAt { node: Node::If(t, e), line, file },
            fuel,
        ) == run_instr(s, NodeAt { node: Node::If(t, other), line, file }, fuel),
        peek(s, 0) == DataTypes::INT(0) ==> run_instr(
            s,
            NodeAt { node: Node::If(t, e), line, file },
            fuel,
        ) == run_seq(drop_top(s, 1), e, (fuel - 1) as nat) && run_instr(
            s,
            NodeAt { node: Node::If(t, e), line, file },
            fuel,
        ) == run_instr(s, NodeAt { node: Node::If(other, e), line, file }, fuel),
        peek(s, 0) != DataTypes::INT(0) && peek(s, 0) != DataTypes::INT(1) ==> run_instr(
            s,
            NodeAt { node: Node::If(t, e), line, file },
            fuel,
        ) == (s, Err::<nat, StopV>(StopV::Fail(fault(ErrorKind::InvalidBoolean, line, file)))),
{
}

/// A loop whose condition yields 1 exactly `count` times and then 0 runs its
/// body exactly `count` times. Here the flags are already on the stack (the
/// condition is empty) and the body prints `v`: the run pops the `count + 1`
/// flags and prints `v` exactly `count` times, using three steps per round.
pub proof fn lemma_while_runs_body_count_times(
    s: Rt,
    count: nat,
    v: u8,
    n: NodeAt,
    fuel: nat,
)
    requires
        rt_wf(s),
        items(s).len() >= count + 1,
        peek(s, count as int) == DataTypes::INT(0),
        forall|i: int| 0 <= i < count ==> peek(s, i) == DataTypes::INT(1),
        fuel >= 3 * count,
    ensures
        run_while(s, Seq::empty(), body_print(v, n), n, fuel) == (
            after_prints(s, count, v),
            Ok::<nat, StopV>((fuel - 3 * count) as nat),
        ),
    decreases count,
{
    lemma_with_items(s);
    let b = body_print(v, n);
    if count == 0 {
        assert(run_seq(s, Seq::empty(), fuel) == (s, Ok::<nat, StopV>(fuel)));
        assert(s.output + Seq::new(0, |i: int| OutV::Number(v)) =~= s.output);
        assert(after_prints(s, count, v) == drop_top(s, 1));
        assert(peek(s, 0) == DataTypes::INT(0));
    } else {
        let s1 = drop_top(s, 1);
        lemma_with_items(s1);
        let s2 = push_val(s1, DataTypes::INT(v));
        lemma_with_items(s2);
        let s3 = emit(drop_top(s2, 1), OutV::Number(v));
        assert(items(s1) =~= items(s).subrange(0, items(s).len() - 1));
        assert(drop_top(s2, 1) == s1) by {
            assert(items(s2).subrange(0, items(s2).len() - 1) =~= items(s1));
            assert(drop_top(s2, 1).stacks =~= s1.stacks);
        }
        assert(run_seq(s3, Seq::empty(), (fuel - 2) as nat) == (s3, Ok::<nat, StopV>((fuel - 2) as nat)));
        assert(b.subrange(1, 2) =~= seq![b[1]]);
        assert(b.subrange(1, 2).subrange(1, 1) =~= Seq::<NodeAt>::empty());
        assert(step(s1, b[0]) == Ok::<Rt, StopV>(s2));
        assert(step(s2, b[1]) == Ok::<Rt, StopV>(s3));
        assert(run_instr(s1, b[0], fuel) == (s2, Ok::<nat, StopV>((fuel - 1) as nat)));
        assert(run_instr(s2, b[1], (fuel - 1) as nat) == (s3, Ok::<nat, StopV>((fuel - 2) as nat)));
        assert(run_seq(s2, b.subrange(1, 2), (fuel - 1) as nat) == (s3, Ok::<nat, StopV>((fuel - 2) as nat)));
        assert(run_seq(s1, b, fuel) == (s3, Ok::<nat, StopV>((fuel - 2) as nat)));
        assert(rt_wf(s3));
        assert forall|i: int| 0 <= i < count - 1 implies peek(s3, i) == DataTypes::INT(1) by {
            assert(peek(s, i + 1) == DataTypes::INT(1));
        }
        assert(peek(s3, count - 1) == peek(s, count as int));
        assert(peek(s, 0) == DataTypes::INT(1));
        assert(run_seq(s, Seq::empty(), fuel) == (s, Ok::<nat, StopV>(fuel)));
        assert(run_while(s, Seq::empty(), b, n, fuel) == run_while(
            s3,
            Seq::empty(),
            b,
            n,
            (fuel - 3) as nat,
        ));
        lemma_while_runs_body_count_times(s3, (count - 1) as nat, v, n, (fuel - 3) as nat);
        assert(s3.stacks == s1.stacks);
        assert(items(s3) =~= items(s).subrange(0, items(s).len() - 1));
        assert(items(s3).subrange(0, items(s3).len() - count) =~= items(s).subrange(
            0,
            items(s).len() - (count + 1),
        ));
        assert(drop_top(s3, count as int).stacks == drop_top(s, count + 1int).stacks);
        assert(s.output + Seq::new(count, |i: int| OutV::Number(v)) =~= s3.output + Seq::new(
            (count - 1) as nat,
            |i: int| OutV::Number(v),
        ));
        assert(after_prints(s3, (count - 1) as nat, v) == after_prints(s, count, v));
    }
}

/// The state after a loop that printed `v` `count` times: the `count + 1`
/// flags are gone and the output has `count` more lines.
pub open spec fn after_prints(s: Rt, count: nat, v: u8) -> Rt {
    Rt { output: s.output + Seq::new(count, |i: int| OutV::Number(v)), ..drop_top(s, count + 1int) }
}

/// A loop body that prints `v`: `push v` then `print`, at the loop's place.
pub open spec fn body_print(v: u8, n: NodeAt) -> Seq<NodeAt> {
    seq![
        NodeAt { node: Node::Push(v), line: n.line, file: n.file },
        NodeAt { node: Node::Print, line: n.line, file: n.file },
    ]
}

/// Arithmetic takes its operands in push order: `push a`, `push b`, then a
/// binary operator leaves `op(a, b)`; for `-` that is `a - b` modulo 256.
pub proof fn lemma_operand_order(s: Rt, a: u8, b: u8, op: Node, line: u8, file: Seq<char>)
    requires
        rt_wf(s),
        op is Add || op is Sub || op is Mult || op is Eq || op is Lt || op is Gt || (op is Div && b
            != 0),
    ensures
        run_seq(
            s,
            seq![
                NodeAt { node: Node::Push(a), line, file },
                NodeAt { node: Node::Push(b), line, file },
                NodeAt { node: op, line, file },
            ],
            3,
        ) == (push_val(s, DataTypes::INT(arith(op, a, b))), Ok::<nat, StopV>(0)),
        op is Sub ==> arith(op, a, b) == (a - b + 256) % 256,
{
    lemma_with_items(s);
    let ns = seq![
        NodeAt { node: Node::Push(a), line, file },
        NodeAt { node: Node::Push(b), line, file },
        NodeAt { node: op, line, file },
    ];
    let s1 = push_val(s, DataTypes::INT(a));
    let s2 = push_val(s1, DataTypes::INT(b));
    let s3 = push_val(drop_top(s2, 2), DataTypes::INT(arith(op, a, b)));
    assert(items(s2) =~= items(s).push(DataTypes::INT(a)).push(DataTypes::INT(b)));
    assert(items(s2).subrange(0, items(s2).len() - 2) =~= items(s));
    assert(drop_top(s2, 2).stacks =~= s.stacks);
    assert(drop_top(s2, 2) == s);
    assert(step(s2, ns[2]) == Ok::<Rt, StopV>(s3));
    assert(run_instr(s, ns[0], 3) == (s1, Ok::<nat, StopV>(2)));
    assert(run_instr(s1, ns[1], 2) == (s2, Ok::<nat, StopV>(1)));
    assert(run_instr(s2, ns[2], 1) == (s3, Ok::<nat, StopV>(0)));
    assert(ns.subrange(1, 3) =~= seq![ns[1], ns[2]]);
    assert(ns.subrange(1, 3).subrange(1, 2) =~= seq![ns[2]]);
    assert(seq![ns[2]].subrange(1, 1) =~= Seq::<NodeAt>::empty());
    assert(run_seq(s3, Seq::empty(), 0) == (s3, Ok::<nat, StopV>(0)));
    assert(run_seq(s2, seq![ns[2]], 1) == (s3, Ok::<nat, StopV>(0)));
    assert(run_seq(s1, ns.subrange(1, 3), 2) == (s3, Ok::<nat, StopV>(0)));
}

/// A tree that parsing could have produced from file `file`: every node
/// names that file (an import's nodes name the imported file), and no
/// variable takes a keyword's name.
pub open spec fn wf_seq(ns: Seq<NodeAt>, file: Seq<char>) -> bool
    decreases ns,
{
    ns.len() == 0 || (wf_node(ns[0], file) && wf_seq(ns.subrange(1, ns.len() as int), file))
}

pub open spec fn wf_node(x: NodeAt, file: Seq<char>) -> bool
    decreases x,
{
    x.file == file && match x.node {
        Node::VarDeclare(n, init) => !is_reserved(n) && wf_seq(init, file),
        Node::If(t, e) => wf_seq(t, file) && wf_seq(e, file),
        Node::While(c, b) => wf_seq(c, file) && wf_seq(b, file),
        Node::Str(items) => wf_seq(items, file),
        Node::Procedure(_, _, body) => wf_seq(body, file),
        Node::Macro(_, body) => wf_seq(body, file),
        Node::Import(p, items) => wf_seq(items, p),
        _ => true,
    }
}

proof fn lemma_ident_run(ops: Seq<TokAt>, start: int, k: int)
    requires
        0 <= start,
        0 <= k,
        start + k < ops.len(),
        forall|i: int| 0 <= i < k ==> (#[trigger] ops[start + i]).tok is Ident,
        !(ops[start + k].tok is Ident),
    ensures
        ident_run_end(ops, start) == start + k,
    decreases k,
{
    if k > 0 {
        assert(ops[start + 0].tok is Ident);
        assert forall|i: int| 0 <= i < k - 1 implies (#[trigger] ops[(start + 1) + i]).tok is Ident by {
            assert(ops[start + (i + 1)].tok is Ident);
        }
        lemma_ident_run(ops, start + 1, k - 1);
    }
}

proof fn lemma_parse_node(x: NodeAt, file: Seq<char>, pre: Seq<TokAt>, rest: Seq<TokAt>)
    requires
        wf_node(x, file),
    ensures
        parse_item(pre + ser_node(x) + rest, pre.len() as int, file) == Ok::<(NodeAt, int), crate::globals::FaultV>(
            (x, pre.len() + ser_node(x).len() as int),
        ),
    decreases x, 1int,
{
    match x.node {
        Node::VarDeclare(..) => lemma_parse_var(x, file, pre, rest),
        Node::If(..) => lemma_parse_if(x, file, pre, rest),
        Node::While(..) => lemma_parse_while(x, file, pre, rest),
        Node::Macro(..) => lemma_parse_macro(x, file, pre, rest),
        Node::Procedure(..) => lemma_parse_proc(x, file, pre, rest),
        Node::Str(items) => lemma_parse_program(items, file),
        Node::Import(path, items) => lemma_parse_program(items, path),
        _ => {
            let p = pre.len() as int;
            let ops = pre + ser_node(x) + rest;
            assert(ops[p] == ser_node(x)[0]);
        },
    }
}

proof fn lemma_parse_var(x: NodeAt, file: Seq<char>, pre: Seq<TokAt>, rest: Seq<TokAt>)
    requires
        wf_node(x, file),
        x.node is VarDeclare,
    ensures
        parse_item(pre + ser_node(x) + rest, pre.len() as int, file) == Ok::<(NodeAt, int), crate::globals::FaultV>(
            (x, pre.len() + ser_node(x).len() as int),
        ),
    decreases x, 0int,
{
    let l = x.line;
    let p = pre.len() as int;
    let ops = pre + ser_node(x) + rest;
    assert(ops[p] == ser_node(x)[0]);
    let n = x.node->VarDeclare_0;
    let init = x.node->VarDeclare_1;
        let a = pre + at(Tok::VarDeclare(n), l);
        let r = at(Tok::Define, l) + rest;
        assert(ops =~= a + ser_seq(init) + r);
        lemma_parse_seq(init, file, a, r);
        let e = p + 1 + ser_seq(init).len();
        assert(ops[e] == r[0]);
}

proof fn lemma_parse_if(x: NodeAt, file: Seq<char>, pre: Seq<TokAt>, rest: Seq<TokAt>)
    requires
        wf_node(x, file),
        x.node is If,
    ensures
        parse_item(pre + ser_node(x) + rest, pre.len() as int, file) == Ok::<(NodeAt, int), crate::globals::FaultV>(
            (x, pre.len() + ser_node(x).len() as int),
        ),
    decreases x, 0int,
{
    let l = x.line;
    let p = pre.len() as int;
    let ops = pre + ser_node(x) + rest;
    assert(ops[p] == ser_node(x)[0]);
    let t = x.node->If_0;
    let el = x.node->If_1;
        let a = pre + at(Tok::If, l);
        let r = at(Tok::Else, l) + ser_seq(el) + at(Tok::End, l) + rest;
        assert(ops =~= a + ser_seq(t) + r);
        lemma_parse_seq(t, file, a, r);
        let e = p + 1 + ser_seq(t).len();
        assert(ops[e] == r[0]);
        let a2 = a + ser_seq(t) + at(Tok::Else, l);
        let r2 = at(Tok::End, l) + rest;
        assert(ops =~= a2 + ser_seq(el) + r2);
        lemma_parse_seq(el, file, a2, r2);
        let e2 = e + 1 + ser_seq(el).len();
        assert(ops[e2] == r2[0]);
        assert(parse_until_end(ops, e + 1, file, l) == Ok::<(Seq<NodeAt>, int), crate::globals::FaultV>((el, e2 + 1)));
}

proof fn lemma_parse_while(x: NodeAt, file: Seq<char>, pre: Seq<TokAt>, rest: Seq<TokAt>)
    requires
        wf_node(x, file),
        x.node is While,
    ensures
        parse_item(pre + ser_node(x) + rest, pre.len() as int, file) == Ok::<(NodeAt, int), crate::globals::FaultV>(
            (x, pre.len() + ser_node(x).len() as int),
        ),
    decreases x, 0int,
{
    let l = x.line;
    let p = pre.len() as int;
    let ops = pre + ser_node(x) + rest;
    assert(ops[p] == ser_node(x)[0]);
    let c = x.node->While_0;
    let b = x.node->While_1;
        let a = pre + at(Tok::While, l);
        let r = at(Tok::Do, l) + ser_seq(b) + at(Tok::End, l) + rest;
        assert(ops =~= a + ser_seq(c) + r);
        lemma_parse_seq(c, file, a, r);
        let e = p + 1 + ser_seq(c).len();
        assert(ops[e] == r[0]);
        let a2 = a + ser_seq(c) + at(Tok::Do, l);
        let r2 = at(Tok::End, l) + rest;
        assert(ops =~= a2 + ser_seq(b) + r2);
        lemma_parse_seq(b, file, a2, r2);
        let e2 = e + 1 + ser_seq(b).len();
        assert(ops[e2] == r2[0]);
        assert(parse_until_end(ops, e + 1, file, l) == Ok::<(Seq<NodeAt>, int), crate::globals::FaultV>((b, e2 + 1)));
}

proof fn lemma_parse_macro(x: NodeAt, file: Seq<char>, pre: Seq<TokAt>, rest: Seq<TokAt>)
    requires
        wf_node(x, file),
        x.node is Macro,
    ensures
        parse_item(pre + ser_node(x) + rest, pre.len() as int, file) == Ok::<(NodeAt, int), crate::globals::FaultV>(
            (x, pre.len() + ser_node(x).len() as int),
        ),
    decreases x, 0int,
{
    let l = x.line;
    let p = pre.len() as int;
    let ops = pre + ser_node(x) + rest;
    assert(ops[p] == ser_node(x)[0]);
    let n = x.node->Macro_0;
    let body = x.node->Macro_1;
        let a = pre + at(Tok::Macro(n), l);
        let r = at(Tok::End, l) + rest;
        assert(ops =~= a + ser_seq(body) + r);
        lemma_parse_seq(body, file, a, r);
        let e = p + 1 + ser_seq(body).len();
        assert(ops[e] == r[0]);
}

proof fn lemma_parse_proc(x: NodeAt, file: Seq<char>, pre: Seq<TokAt>, rest: Seq<TokAt>)
    requires
        wf_node(x, file),
        x.node is Procedure,
    ensures
        parse_item(pre + ser_node(x) + rest, pre.len() as int, file) == Ok::<(NodeAt, int), crate::globals::FaultV>(
            (x, pre.len() + ser_node(x).len() as int),
        ),
    decreases x, 0int,
{
    let l = x.line;
    let p = pre.len() as int;
    let ops = pre + ser_node(x) + rest;
    assert(ops[p] == ser_node(x)[0]);
    let name = x.node->Procedure_0;
    let args = x.node->Procedure_1;
    let body = x.node->Procedure_2;
        let k = args.len() as int;
        let head = at(Tok::Procedure, l) + at(Tok::Ident(name), l) + at(Tok::In, l);
        let a = pre + head + ser_args(args, l) + at(Tok::Do, l);
        let r = at(Tok::End, l) + rest;
        assert(ops =~= a + ser_seq(body) + r);
        assert(ops[p + 1] == head[1]);
        assert(ops[p + 2] == head[2]);
        assert forall|i: int| 0 <= i < k implies (#[trigger] ops[(p + 3) + i]).tok is Ident by {
            assert(ops[(p + 3) + i] == ser_args(args, l)[i]);
        }
        assert(ops[p + 3 + k] == at(Tok::Do, l)[0]);
        lemma_ident_run(ops, p + 3, k);
        assert(ident_names(ops, p + 3, p + 3 + k) =~= args) by {
            assert forall|i: int| 0 <= i < k implies ops[p + 3 + i].tok->Ident_0 == args[i] by {
                assert(ops[(p + 3) + i] == ser_args(args, l)[i]);
            }
        }
        lemma_parse_seq(body, file, a, r);
        let e = p + 4 + k + ser_seq(body).len();
        assert(ops[e] == r[0]);
}

proof fn lemma_parse_seq(ns: Seq<NodeAt>, file: Seq<char>, pre: Seq<TokAt>, rest: Seq<TokAt>)
    requires
        wf_seq(ns, file),
        rest.len() == 0 || is_closer(rest[0].tok),
    ensures
        parse_block(pre + ser_seq(ns) + rest, pre.len() as int, file) == Ok::<
            (Seq<NodeAt>, int),
            crate::globals::FaultV,
        >((ns, pre.len() + ser_seq(ns).len() as int)),
    decreases ns, 0int,
{
    let p = pre.len() as int;
    let ops = pre + ser_seq(ns) + rest;
    if ns.len() == 0 {
        assert(ns =~= Seq::<NodeAt>::empty());
        assert(ops =~= pre + rest);
        if rest.len() > 0 {
            assert(ops[p] == rest[0]);
        }
    } else {
        let x = ns[0];
        let tail = ns.subrange(1, ns.len() as int);
        let r = ser_seq(tail) + rest;
        assert(ops =~= pre + ser_node(x) + r);
        lemma_parse_node(x, file, pre, r);
        lemma_first_not_closer(x);
        assert(ops[p] == ser_node(x)[0]);
        let a = pre + ser_node(x);
        assert(ops =~= a + ser_seq(tail) + rest);
        lemma_parse_seq(tail, file, a, rest);
        assert(seq![x] + tail =~= ns);
        assert(ser_seq(ns) == ser_node(x) + ser_seq(tail));
    }
}

proof fn lemma_first_not_closer(x: NodeAt)
    ensures
        ser_node(x).len() >= 1,
        !is_closer(ser_node(x)[0].tok),
{
}

/// Writing a tree that parsing could have produced back to tokens and parsing
/// them gives the same tree again, lines included.
pub proof fn lemma_parse_program(ns: Seq<NodeAt>, file: Seq<char>)
    requires
        wf_seq(ns, file),
    ensures
        parse_program(ser_seq(ns), file) == Ok::<Seq<NodeAt>, crate::globals::FaultV>(ns),
    decreases ns, 1int,
{
    lemma_parse_seq(ns, file, Seq::empty(), Seq::empty());
    assert(Seq::<TokAt>::empty() + ser_seq(ns) + Seq::<TokAt>::empty() =~= ser_seq(ns));
}

proof fn lemma_wf_single(n: NodeAt, rest: Seq<NodeAt>, file: Seq<char>)
    requires
        wf_node(n, file),
        wf_seq(rest, file),
    ensures
        wf_seq(seq![n] + rest, file),
{
    assert((seq![n] + rest).subrange(1, (seq![n] + rest).len() as int) =~= rest);
    assert((seq![n] + rest)[0] == n);
}

proof fn lemma_block_wf(ops: Seq<TokAt>, pos: int, file: Seq<char>)
    ensures
        parse_block(ops, pos, file) matches Ok((items, _)) ==> wf_seq(items, file),
    decreases ops, ops.len() - pos, 1int,
{
    if 0 <= pos < ops.len() && !is_closer(ops[pos].tok) {
        lemma_item_wf(ops, pos, file);
        match parse_item(ops, pos, file) {
            Ok((n, next)) => {
                if pos < next <= ops.len() {
                    lemma_block_wf(ops, next, file);
                    match parse_block(ops, next, file) {
                        Ok((rest, _)) => lemma_wf_single(n, rest, file),
                        Err(_) => {},
                    }
                } else {
                    lemma_wf_single(n, Seq::empty(), file);
                    assert(seq![n] + Seq::<NodeAt>::empty() =~= seq![n]);
                }
            },
            Err(_) => {},
        }
    }
}

proof fn lemma_until_end_wf(ops: Seq<TokAt>, pos: int, file: Seq<char>, line: u8)
    ensures
        parse_until_end(ops, pos, file, line) matches Ok((items, _)) ==> wf_seq(items, file),
    decreases ops, ops.len() - pos, 2int,
{
    if 0 <= pos <= ops.len() {
        lemma_block_wf(ops, pos, file);
    }
}

proof fn lemma_item_wf(ops: Seq<TokAt>, pos: int, file: Seq<char>)
    ensures
        parse_item(ops, pos, file) matches Ok((n, _)) ==> wf_node(n, file),
    decreases ops, ops.len() - pos, 0int,
{
    if 0 <= pos < ops.len() {
        let line = ops[pos].line;
        match ops[pos].tok {
            Tok::If => {
                lemma_block_wf(ops, pos + 1, file);
                match parse_block(ops, pos + 1, file) {
                    Ok((_, e)) => {
                        if pos < e < ops.len() {
                            lemma_until_end_wf(ops, e + 1, file, line);
                        }
                    },
                    Err(_) => {},
                }
            },
            Tok::While => {
                lemma_block_wf(ops, pos + 1, file);
                match parse_block(ops, pos + 1, file) {
                    Ok((_, e)) => {
                        if pos < e < ops.len() {
                            lemma_until_end_wf(ops, e + 1, file, line);
                        }
                    },
                    Err(_) => {},
                }
            },
            Tok::VarDeclare(_) => {
                lemma_block_wf(ops, pos + 1, file);
            },
            Tok::Macro(_) => {
                lemma_until_end_wf(ops, pos + 1, file, line);
            },
            Tok::Procedure => {
                if pos + 2 < ops.len() && ops[pos + 1].tok is Ident {
                    let body_start = if ops[pos + 2].tok is In {
                        ident_run_end(ops, pos + 3) + 1
                    } else {
                        pos + 3
                    };
                    if pos < body_start - 1 < ops.len() {
                        lemma_until_end_wf(ops, body_start, file, line);
                    }
                }
            },
            Tok::Str(inner) => {
                lemma_program_wf(inner, file);
            },
            Tok::Import(inner, path) => {
                lemma_program_wf(inner, path);
            },
            _ => {},
        }
    }
}

proof fn lemma_program_wf(ops: Seq<TokAt>, file: Seq<char>)
    ensures
        parse_program(ops, file) matches Ok(ns) ==> wf_seq(ns, file),
    decreases ops, ops.len() + 1, 0int,
{
    lemma_block_wf(ops, 0, file);
}

/// Round trip: parsing a token stream, writing the tree back to tokens and
/// parsing those again gives the same tree (lines included).
pub proof fn lemma_round_trip(ops: Seq<TokAt>, file: Seq<char>)
    requires
        parse_program(ops, file) is Ok,
    ensures
        parse_program(ser_seq(parse_program(ops, file)->Ok_0), file) == parse_program(ops, file),
{
    lemma_program_wf(ops, file);
    lemma_parse_program(parse_program(ops, file)->Ok_0, file);
}

// ---------------------------------------------------------------------------
// Procedure calls keep the caller's variables
// ---------------------------------------------------------------------------

/// `t` has the frame of `s`, and the bindings below that frame unchanged.
pub open spec fn keeps_outer(s: Rt, t: Rt) -> bool {
    &&& t.frame == s.frame
    &&& s.frame <= t.vars.len()
    &&& t.vars.subrange(0, s.frame) == s.vars.subrange(0, s.frame)
}

pub open spec fn frame_ok(s: Rt) -> bool {
    0 <= s.frame <= s.vars.len()
}

proof fn lemma_keeps_trans(a: Rt, b: Rt, c: Rt)
    requires
        keeps_outer(a, b),
        keeps_outer(b, c),
    ensures
        keeps_outer(a, c),
{
    assert(c.vars.subrange(0, a.frame) =~= b.vars.subrange(0, a.frame));
}

proof fn lemma_keeps_refl(a: Rt)
    requires
        frame_ok(a),
    ensures
        keeps_outer(a, a),
{
}

proof fn lemma_find_var_bounds(vars: Seq<(Seq<char>, DataTypes)>, n: Seq<char>, lo: int)
    ensures
        find_var(vars, n, lo) matches Some(j) ==> lo <= j < vars.len(),
    decreases vars.len(),
{
    if vars.len() > lo && vars.len() > 0 && vars[vars.len() - 1].0 != n {
        lemma_find_var_bounds(vars.subrange(0, vars.len() - 1), n, lo);
    }
}

proof fn lemma_bind_keeps(s: Rt, n: Seq<char>, v: DataTypes)
    requires
        frame_ok(s),
    ensures
        keeps_outer(s, bind(s, n, v)),
{
    lemma_find_var_bounds(s.vars, n, s.frame);
    let t = bind(s, n, v);
    assert(t.vars.subrange(0, s.frame) =~= s.vars.subrange(0, s.frame));
}

proof fn lemma_step_keeps(s: Rt, n: NodeAt)
    requires
        frame_ok(s),
        0 <= s.active < s.stacks.len(),
    ensures
        step(s, n) matches Ok(t) ==> keeps_outer(s, t) && s.stacks.len() <= t.stacks.len(),
{
    lemma_with_items(s);
    lemma_find_var_bounds(s.vars, n.node->Drop_0, s.frame);
    match step(s, n) {
        Ok(t) => {
            assert(t.vars.subrange(0, s.frame) =~= s.vars.subrange(0, s.frame));
        },
        Err(_) => {},
    }
}

proof fn lemma_seq_keeps(s: Rt, b: Seq<NodeAt>, fuel: nat)
    requires
        frame_ok(s),
        0 <= s.active < s.stacks.len(),
    ensures
        run_seq(s, b, fuel).1 is Ok ==> keeps_outer(s, run_seq(s, b, fuel).0),
        0 <= run_seq(s, b, fuel).0.active < run_seq(s, b, fuel).0.stacks.len(),
        s.stacks.len() <= run_seq(s, b, fuel).0.stacks.len(),
    decreases fuel, 1int, b.len() as int,
{
    if b.len() == 0 {
        lemma_keeps_refl(s);
    } else {
        lemma_instr_keeps(s, b[0], fuel);
        let (s1, r) = run_instr(s, b[0], fuel);
        match r {
            Ok(f1) => {
                if f1 <= fuel {
                    lemma_seq_keeps(s1, b.subrange(1, b.len() as int), f1);
                    if run_seq(s1, b.subrange(1, b.len() as int), f1).1 is Ok {
                        lemma_keeps_trans(s, s1, run_seq(s1, b.subrange(1, b.len() as int), f1).0);
                    }
                }
            },
            Err(_) => {},
        }
    }
}

proof fn lemma_while_keeps(s: Rt, c: Seq<NodeAt>, b: Seq<NodeAt>, n: NodeAt, fuel: nat)
    requires
        frame_ok(s),
        0 <= s.active < s.stacks.len(),
    ensures
        run_while(s, c, b, n, fuel).1 is Ok ==> keeps_outer(s, run_while(s, c, b, n, fuel).0),
        0 <= run_while(s, c, b, n, fuel).0.active < run_while(s, c, b, n, fuel).0.stacks.len(),
        s.stacks.len() <= run_while(s, c, b, n, fuel).0.stacks.len(),
    decreases fuel, 2int, 0int,
{
    lemma_seq_keeps(s, c, fuel);
    let (s1, r) = run_seq(s, c, fuel);
    match r {
        Ok(f1) => {
            lemma_with_items(s1);
            if f1 <= fuel && items(s1).len() >= 1 {
                let d = drop_top(s1, 1);
                lemma_keeps_trans(s, s1, d);
                if peek(s1, 0) == DataTypes::INT(1) {
                    lemma_seq_keeps(d, b, f1);
                    let (s2, r2) = run_seq(d, b, f1);
                    match r2 {
                        Ok(f2) => {
                            lemma_keeps_trans(s, d, s2);
                            if f2 <= f1 && f2 > 0 {
                                lemma_while_keeps(s2, c, b, n, (f2 - 1) as nat);
                                if run_while(s2, c, b, n, (f2 - 1) as nat).1 is Ok {
                                    lemma_keeps_trans(s, s2, run_while(s2, c, b, n, (f2 - 1) as nat).0);
                                }
                            }
                        },
                        Err(_) => {},
                    }
                }
            }
        },
        Err(_) => {},
    }
}

proof fn lemma_call_keeps(s: Rt, p: ProcV, n: NodeAt, fuel: nat)
    requires
        frame_ok(s),
        0 <= s.active < s.stacks.len(),
    ensures
        run_call(s, p, n, fuel).1 is Ok ==> keeps_outer(s, run_call(s, p, n, fuel).0),
        run_call(s, p, n, fuel).1 is Ok && p.isolated ==> run_call(s, p, n, fuel).0.vars == s.vars,
        0 <= run_call(s, p, n, fuel).0.active < run_call(s, p, n, fuel).0.stacks.len(),
        s.stacks.len() <= run_call(s, p, n, fuel).0.stacks.len(),
    decreases fuel, 3int, 0int,
{
    if !p.isolated {
        lemma_seq_keeps(s, p.body, fuel);
    } else if items(s).len() >= p.args.len() {
        lemma_with_items(s);
        let e = enter(s, p);
        assert(frame_ok(e));
        assert(drop_top(s, p.args.len() as int).stacks.len() == s.stacks.len());
        assert(0 <= e.active < e.stacks.len());
        lemma_seq_keeps(e, p.body, fuel);
        let (s3, r) = run_seq(e, p.body, fuel);
        if r is Ok {
            assert(e.vars.subrange(0, e.frame) =~= s.vars);
            let l = leave(s3, e.active, s.frame, s.vars.len() as int);
            assert(l.stacks.len() == s3.stacks.len());
            assert(l.vars =~= s.vars);
            assert(l.vars.subrange(0, s.frame) =~= s.vars.subrange(0, s.frame));
        }
    }
}

proof fn lemma_instr_keeps(s: Rt, n: NodeAt, fuel: nat)
    requires
        frame_ok(s),
        0 <= s.active < s.stacks.len(),
    ensures
        run_instr(s, n, fuel).1 is Ok ==> keeps_outer(s, run_instr(s, n, fuel).0),
        0 <= run_instr(s, n, fuel).0.active < run_instr(s, n, fuel).0.stacks.len(),
        s.stacks.len() <= run_instr(s, n, fuel).0.stacks.len(),
    decreases fuel, 0int, 0int,
{
    lemma_with_items(s);
    lemma_keeps_refl(s);
    if fuel > 0 {
        let f = (fuel - 1) as nat;
        match n.node {
            Node::If(t, e) => {
                let d = drop_top(s, 1);
                lemma_seq_keeps(d, t, f);
                lemma_seq_keeps(d, e, f);
                if run_seq(d, t, f).1 is Ok {
                    lemma_keeps_trans(s, d, run_seq(d, t, f).0);
                }
                if run_seq(d, e, f).1 is Ok {
                    lemma_keeps_trans(s, d, run_seq(d, e, f).0);
                }
            },
            Node::While(c, b) => {
                lemma_while_keeps(s, c, b, n, f);
            },
            Node::VarDeclare(name, init) => {
                let s0 = Rt { names: s.names.push((name, crate::runtime::StorageTypes::Variable)), ..s };
                lemma_seq_keeps(s, init, f);
                lemma_seq_keeps(s0, init, f);
                let o1 = run_seq(s, init, f);
                let o2 = run_seq(s0, init, f);
                if o1.1 is Ok && items(o1.0).len() >= 1 {
                    lemma_with_items(o1.0);
                    let d = drop_top(o1.0, 1);
                    lemma_keeps_trans(s, o1.0, d);
                    lemma_bind_keeps(d, name, peek(o1.0, 0));
                    lemma_keeps_trans(s, d, bind(d, name, peek(o1.0, 0)));
                }
                if o2.1 is Ok && items(o2.0).len() >= 1 {
                    lemma_with_items(o2.0);
                    let d = drop_top(o2.0, 1);
                    lemma_keeps_trans(s, o2.0, d);
                    lemma_bind_keeps(d, name, peek(o2.0, 0));
                    lemma_keeps_trans(s, d, bind(d, name, peek(o2.0, 0)));
                }
            },
            Node::Ident(name) => {
                match find_var(s.vars, name, 0) {
                    Some(i) => {},
                    None => match crate::runtime::find_proc(s.procs, name) {
                        Some(k) => lemma_call_keeps(s, s.procs[k], n, f),
                        None => {},
                    },
                }
            },
            Node::Str(b) => lemma_seq_keeps(s, b, f),
            Node::Import(_, b) => lemma_seq_keeps(s, b, f),
            Node::Procedure(..) => {},
            Node::Macro(..) => {},
            _ => {
                lemma_step_keeps(s, n);
            },
        }
    }
}

/// A procedure call leaves the caller's variables exactly as they were: what
/// the body declares, and the parameters, live in the call's own frame and
/// are gone when it returns; a parameter named like a caller's variable hides
/// it only for the call.
pub proof fn lemma_call_keeps_caller_vars(s: Rt, p: ProcV, n: NodeAt, fuel: nat)
    requires
        rt_wf(s),
        p.isolated,
        run_call(s, p, n, fuel).1 is Ok,
    ensures
        run_call(s, p, n, fuel).0.vars == s.vars,
        run_call(s, p, n, fuel).0.frame == s.frame,
{
    lemma_call_keeps(s, p, n, fuel);
}

} // verus!
