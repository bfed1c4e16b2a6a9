//! The evaluator: runs an instruction tree over a set of named stacks.
//!
//! Stacks live in an arena indexed by a stable handle; closing a stack marks
//! its slot dead, so a stale handle is detected instead of followed. Slot 0 is
//! the `main` stack. Every run is given a step budget (fuel) so that each call
//! of the evaluator returns.
use vstd::prelude::*;
use crate::globals::{
    DataTypes, ErrorKind, Fault, FaultV, Instruction, Instructions, Node, NodeAt, VariableDefine,
    copy_instructions, copy_strings, instr_view, instrs_view, is_reserved_name, lemma_instrs_view,
    strings_view,
};
use crate::parser::fault;

verus! {

/// The kind under which a name is registered.
#[derive(Debug, Clone, Copy, PartialEq, Eq, Structural)]
pub enum StorageTypes {
    Stack,
    Variable,
    Procedure,
}

/// An entry of the name registry.
#[derive(Debug, Clone, PartialEq)]
pub struct NameEntry {
    pub name: String,
    pub kind: StorageTypes,
}

/// A variable binding.
#[derive(Debug, Clone, PartialEq)]
pub struct Binding {
    pub name: String,
    pub value: DataTypes,
}

/// What a run writes to the console, one event at a time.
#[derive(Debug, Clone, PartialEq)]
pub enum Output {
    /// `print` of a byte: its decimal value on a line.
    Number(u8),
    /// `print` of a stack handle.
    Ref(usize),
    /// `print_ascii`: the byte as a character.
    Char(u8),
    /// The heading of a `stacks` listing.
    StacksHeader,
    /// One line of a `stacks` listing.
    StackName(String),
}

/// A console event as a plain value.
pub enum OutV {
    Number(u8),
    Ref(usize),
    Char(u8),
    StacksHeader,
    StackName(Seq<char>),
}

impl View for Output {
    type V = OutV;

    open spec fn view(&self) -> OutV {
        match self {
            Output::Number(u) => OutV::Number(*u),
            Output::Ref(h) => OutV::Ref(*h),
            Output::Char(u) => OutV::Char(*u),
            Output::StacksHeader => OutV::StacksHeader,
            Output::StackName(n) => OutV::StackName(n@),
        }
    }
}

/// A named stack as a plain value.
pub struct SlotV {
    pub name: Seq<char>,
    pub live: bool,
    pub items: Seq<DataTypes>,
}

/// A declared procedure (or macro, which runs in place) as a plain value.
pub struct ProcV {
    pub name: Seq<char>,
    pub args: Seq<Seq<char>>,
    pub body: Seq<NodeAt>,
    pub isolated: bool,
}

/// The state of a run as a plain value.
pub struct Rt {
    pub stacks: Seq<SlotV>,
    pub active: int,
    pub vars: Seq<(Seq<char>, DataTypes)>,
    pub frame: int,
    pub procs: Seq<ProcV>,
    pub names: Seq<(Seq<char>, StorageTypes)>,
    pub output: Seq<OutV>,
    pub salt: Seq<char>,
}

/// Why a run stopped early.
pub enum StopV {
    Fail(FaultV),
    Exit(u8),
}

/// The state after a step, and the fuel left or why the run stopped.
pub type Outcome = (Rt, Result<nat, StopV>);

// ---------------------------------------------------------------------------
// Small pieces of state
// ---------------------------------------------------------------------------

pub open spec fn items(s: Rt) -> Seq<DataTypes> {
    s.stacks[s.active].items
}

pub open spec fn with_items(s: Rt, it: Seq<DataTypes>) -> Rt {
    Rt {
        stacks: s.stacks.update(
            s.active,
            SlotV { name: s.stacks[s.active].name, live: s.stacks[s.active].live, items: it },
        ),
        ..s
    }
}

pub open spec fn push_val(s: Rt, v: DataTypes) -> Rt {
    with_items(s, items(s).push(v))
}

/// The value `k` places below the top of the active stack.
pub open spec fn peek(s: Rt, k: int) -> DataTypes {
    items(s)[items(s).len() - 1 - k]
}

/// The active stack without its top `k` values.
pub open spec fn drop_top(s: Rt, k: int) -> Rt {
    with_items(s, items(s).subrange(0, items(s).len() - k))
}

pub open spec fn emit(s: Rt, o: OutV) -> Rt {
    Rt { output: s.output.push(o), ..s }
}

/// Index of the registry entry for `n`, if any.
pub open spec fn find_name(names: Seq<(Seq<char>, StorageTypes)>, n: Seq<char>) -> Option<int>
    decreases names.len(),
{
    if names.len() == 0 {
        None
    } else if names[names.len() - 1].0 == n {
        Some(names.len() - 1)
    } else {
        find_name(names.subrange(0, names.len() - 1), n)
    }
}

/// Index of the innermost binding of `n` at or above position `lo`.
pub open spec fn find_var(vars: Seq<(Seq<char>, DataTypes)>, n: Seq<char>, lo: int) -> Option<
    int,
>
    decreases vars.len(),
{
    if vars.len() <= lo || vars.len() == 0 {
        None
    } else if vars[vars.len() - 1].0 == n {
        Some(vars.len() - 1)
    } else {
        find_var(vars.subrange(0, vars.len() - 1), n, lo)
    }
}

/// Index of the newest live stack named `n`, if any.
pub open spec fn find_stack(stacks: Seq<SlotV>, n: Seq<char>) -> Option<int>
    decreases stacks.len(),
{
    if stacks.len() == 0 {
        None
    } else if stacks[stacks.len() - 1].live && stacks[stacks.len() - 1].name == n {
        Some(stacks.len() - 1)
    } else {
        find_stack(stacks.subrange(0, stacks.len() - 1), n)
    }
}

/// Index of the procedure or macro named `n`, if any.
pub open spec fn find_proc(procs: Seq<ProcV>, n: Seq<char>) -> Option<int>
    decreases procs.len(),
{
    if procs.len() == 0 {
        None
    } else if procs[procs.len() - 1].name == n {
        Some(procs.len() - 1)
    } else {
        find_proc(procs.subrange(0, procs.len() - 1), n)
    }
}

/// The lines of a `stacks` listing: the names of the live stacks, in order.
pub open spec fn listing(stacks: Seq<SlotV>) -> Seq<OutV>
    decreases stacks.len(),
{
    if stacks.len() == 0 {
        Seq::empty()
    } else {
        let rest = listing(stacks.subrange(0, stacks.len() - 1));
        if stacks[stacks.len() - 1].live {
            rest.push(OutV::StackName(stacks[stacks.len() - 1].name))
        } else {
            rest
        }
    }
}

/// Binds `n` to `v` in the current frame: overwrites a binding of the frame,
/// or adds one.
pub open spec fn bind(s: Rt, n: Seq<char>, v: DataTypes) -> Rt {
    match find_var(s.vars, n, s.frame) {
        Some(i) => Rt { vars: s.vars.update(i, (n, v)), ..s },
        None => Rt { vars: s.vars.push((n, v)), ..s },
    }
}

/// The result of an arithmetic or comparison node on `second` (pushed first)
/// and `first` (the top of the stack).
pub open spec fn arith(n: Node, second: u8, first: u8) -> u8 {
    match n {
        Node::Add => ((second + first) % 256) as u8,
        Node::Sub => ((second - first + 256) % 256) as u8,
        Node::Mult => ((second * first) % 256) as u8,
        Node::Div => (second / first) as u8,
        Node::Eq => if second == first { 1 } else { 0 },
        Node::Lt => if second < first { 1 } else { 0 },
        _ => if second > first { 1 } else { 0 },
    }
}

pub open spec fn is_binary(n: Node) -> bool {
    n is Add || n is Sub || n is Mult || n is Div || n is Eq || n is Lt || n is Gt
}

pub open spec fn is_stack_handle(s: Rt, v: DataTypes) -> bool {
    v matches DataTypes::STACKPOINTER(h) && 0 <= h < s.stacks.len() && s.stacks[h as int].live
}

/// One step of a node that does not run other nodes. On failure the state is
/// left as it was.
pub open spec fn step(s: Rt, n: NodeAt) -> Result<Rt, StopV> {
    let fail = |k: ErrorKind| Err::<Rt, StopV>(StopV::Fail(fault(k, n.line, n.file)));
    let len = items(s).len();
    match n.node {
        Node::Push(b) => Ok(push_val(s, DataTypes::INT(b))),
        Node::Pop => if len < 1 {
            fail(ErrorKind::StackUnderflow)
        } else {
            Ok(drop_top(s, 1))
        },
        Node::Print => if len < 1 {
            fail(ErrorKind::StackUnderflow)
        } else {
            match peek(s, 0) {
                DataTypes::INT(u) => Ok(emit(drop_top(s, 1), OutV::Number(u))),
                DataTypes::STACKPOINTER(h) => Ok(emit(drop_top(s, 1), OutV::Ref(h))),
            }
        },
        Node::PrintAscii => if len < 1 {
            fail(ErrorKind::StackUnderflow)
        } else {
            match peek(s, 0) {
                DataTypes::INT(u) => Ok(emit(drop_top(s, 1), OutV::Char(u))),
                DataTypes::STACKPOINTER(_) => fail(ErrorKind::TypeMismatch),
            }
        },
        Node::Dup => if len < 1 {
            fail(ErrorKind::StackUnderflow)
        } else {
            Ok(push_val(s, peek(s, 0)))
        },
        Node::Swap => if len < 2 {
            fail(ErrorKind::StackUnderflow)
        } else {
            Ok(push_val(push_val(drop_top(s, 2), peek(s, 0)), peek(s, 1)))
        },
        Node::Add | Node::Sub | Node::Mult | Node::Div | Node::Eq | Node::Lt | Node::Gt => {
            if len < 2 {
                fail(ErrorKind::StackUnderflow)
            } else {
                match (peek(s, 0), peek(s, 1)) {
                    (DataTypes::INT(first), DataTypes::INT(second)) => {
                        if n.node is Div && first == 0 {
                            fail(ErrorKind::DivisionByZero)
                        } else {
                            Ok(push_val(drop_top(s, 2), DataTypes::INT(arith(n.node, second, first))))
                        }
                    },
                    _ => fail(ErrorKind::TypeMismatch),
                }
            }
        },
        Node::Drop(name) => match find_name(s.names, name) {
            Some(i) if s.names[i].1 == StorageTypes::Variable => match find_var(
                s.vars,
                name,
                s.frame,
            ) {
                Some(j) => Ok(Rt { vars: s.vars.remove(j), ..s }),
                None => Ok(s),
            },
            _ => fail(ErrorKind::UnknownIdentifier),
        },
        Node::Spawn(name) => if crate::globals::is_reserved(name) || find_name(s.names, name) is Some {
            fail(ErrorKind::NameCollision)
        } else {
            let h = s.stacks.len();
            let t = Rt {
                stacks: s.stacks.push(SlotV { name, live: true, items: Seq::empty() }),
                names: s.names.push((name, StorageTypes::Stack)),
                ..s
            };
            Ok(push_val(t, DataTypes::STACKPOINTER(h as usize)))
        },
        Node::Switch => if len < 1 {
            fail(ErrorKind::StackUnderflow)
        } else {
            match peek(s, 0) {
                DataTypes::INT(_) => fail(ErrorKind::TypeMismatch),
                DataTypes::STACKPOINTER(h) => if is_stack_handle(s, peek(s, 0)) {
                    Ok(Rt { active: h as int, ..drop_top(s, 1) })
                } else {
                    fail(ErrorKind::MissingStack)
                },
            }
        },
        Node::Close => if len < 1 {
            fail(ErrorKind::StackUnderflow)
        } else {
            match peek(s, 0) {
                DataTypes::INT(_) => fail(ErrorKind::TypeMismatch),
                DataTypes::STACKPOINTER(h) => if !is_stack_handle(s, peek(s, 0)) {
                    fail(ErrorKind::MissingStack)
                } else if h == 0 || h == s.active {
                    fail(ErrorKind::IllegalClose)
                } else {
                    let d = drop_top(s, 1);
                    Ok(
                        Rt {
                            stacks: d.stacks.update(
                                h as int,
                                SlotV { name: d.stacks[h as int].name, live: false, items: Seq::empty() },
                            ),
                            ..d
                        },
                    )
                },
            }
        },
        Node::Stack(name) => match find_stack(s.stacks, name) {
            Some(h) => Ok(push_val(s, DataTypes::STACKPOINTER(h as usize))),
            None => fail(ErrorKind::MissingStack),
        },
        Node::This => Ok(push_val(s, DataTypes::STACKPOINTER(s.active as usize))),
        Node::Stacks => Ok(
            Rt { output: s.output.push(OutV::StacksHeader) + listing(s.stacks), ..s },
        ),
        Node::StackSize => Ok(push_val(s, DataTypes::INT((len % 256) as u8))),
        Node::StackRev => Ok(with_items(s, items(s).reverse())),
        Node::Exit => if len < 1 {
            fail(ErrorKind::StackUnderflow)
        } else {
            match peek(s, 0) {
                DataTypes::INT(c) => Err(StopV::Exit(c)),
                DataTypes::STACKPOINTER(_) => fail(ErrorKind::TypeMismatch),
            }
        },
        _ => Ok(s),
    }
}

// ---------------------------------------------------------------------------
// Running nodes
// ---------------------------------------------------------------------------

/// Stops the run with a fault of kind `k` at node `n`, in state `s`.
pub open spec fn stop(s: Rt, k: ErrorKind, n: NodeAt) -> Outcome {
    (s, Err(StopV::Fail(fault(k, n.line, n.file))))
}

/// Binds the value that an initializer left on the stack.
pub open spec fn finish_var(o: Outcome, name: Seq<char>, n: NodeAt) -> Outcome {
    match o.1 {
        Err(e) => (o.0, Err(e)),
        Ok(f) => if items(o.0).len() < 1 {
            stop(o.0, ErrorKind::StackUnderflow, n)
        } else {
            (bind(drop_top(o.0, 1), name, peek(o.0, 0)), Ok(f))
        },
    }
}

/// Enters a procedure: pops one value per parameter into a fresh frame of
/// bindings, and makes a fresh private stack (named by the run's salt) active.
pub open spec fn enter(s: Rt, p: ProcV) -> Rt {
    let d = drop_top(s, p.args.len() as int);
    Rt {
        vars: s.vars + Seq::new(p.args.len(), |i: int| (p.args[i], peek(s, i))),
        frame: s.vars.len() as int,
        stacks: d.stacks.push(SlotV { name: s.salt, live: true, items: Seq::empty() }),
        active: d.stacks.len() as int,
        ..d
    }
}

/// Leaves a procedure: back to `main`, the private stack `h` closed, and the
/// call's frame of bindings dropped.
pub open spec fn leave(s: Rt, h: int, frame: int, base: int) -> Rt {
    Rt {
        active: 0,
        stacks: s.stacks.update(h, SlotV { name: s.stacks[h].name, live: false, items: Seq::empty() }),
        vars: s.vars.subrange(0, base),
        frame,
        ..s
    }
}

/// Runs a sequence of nodes in order, until one stops the run.
pub open spec fn run_seq(s: Rt, b: Seq<NodeAt>, fuel: nat) -> Outcome
    decreases fuel, 1int, b.len() as int,
{
    if b.len() == 0 {
        (s, Ok(fuel))
    } else {
        let (s1, r) = run_instr(s, b[0], fuel);
        match r {
            Err(e) => (s1, Err(e)),
            Ok(f1) => if f1 <= fuel {
                run_seq(s1, b.subrange(1, b.len() as int), f1)
            } else {
                (s1, Ok(f1))
            },
        }
    }
}

/// One check of a loop: runs the condition, pops the flag, and on 1 runs the
/// body and checks again.
pub open spec fn run_while(s: Rt, c: Seq<NodeAt>, b: Seq<NodeAt>, n: NodeAt, fuel: nat) -> Outcome
    decreases fuel, 2int, 0int,
{
    let (s1, r) = run_seq(s, c, fuel);
    match r {
        Err(e) => (s1, Err(e)),
        Ok(f1) => if f1 > fuel {
            (s1, Ok(f1))
        } else if items(s1).len() < 1 {
            stop(s1, ErrorKind::StackUnderflow, n)
        } else if peek(s1, 0) == DataTypes::INT(0) {
            (drop_top(s1, 1), Ok(f1))
        } else if peek(s1, 0) == DataTypes::INT(1) {
            let (s2, r2) = run_seq(drop_top(s1, 1), b, f1);
            match r2 {
                Err(e) => (s2, Err(e)),
                Ok(f2) => if f2 > f1 {
                    (s2, Ok(f2))
                } else if f2 == 0 {
                    stop(s2, ErrorKind::OutOfFuel, n)
                } else {
                    run_while(s2, c, b, n, (f2 - 1) as nat)
                },
            }
        } else {
            stop(s1, ErrorKind::InvalidBoolean, n)
        }
    }
}

/// Calls a procedure (in a private stack and frame) or a macro (in place).
pub open spec fn run_call(s: Rt, p: ProcV, n: NodeAt, fuel: nat) -> Outcome
    decreases fuel, 3int, 0int,
{
    if !p.isolated {
        run_seq(s, p.body, fuel)
    } else if items(s).len() < p.args.len() {
        stop(s, ErrorKind::StackUnderflow, n)
    } else {
        let e = enter(s, p);
        let (s3, r) = run_seq(e, p.body, fuel);
        match r {
            Err(x) => (s3, Err(x)),
            Ok(f) => (leave(s3, e.active, s.frame, s.vars.len() as int), Ok(f)),
        }
    }
}

/// Runs one node, with `fuel` steps left.
pub open spec fn run_instr(s: Rt, n: NodeAt, fuel: nat) -> Outcome
    decreases fuel, 0int, 0int,
{
    if fuel == 0 {
        stop(s, ErrorKind::OutOfFuel, n)
    } else {
        let f = (fuel - 1) as nat;
        match n.node {
            Node::If(t, e) => if items(s).len() < 1 {
                stop(s, ErrorKind::StackUnderflow, n)
            } else if peek(s, 0) == DataTypes::INT(1) {
                run_seq(drop_top(s, 1), t, f)
            } else if peek(s, 0) == DataTypes::INT(0) {
                run_seq(drop_top(s, 1), e, f)
            } else {
                stop(s, ErrorKind::InvalidBoolean, n)
            },
            Node::While(c, b) => run_while(s, c, b, n, f),
            Node::VarDeclare(name, init) => match find_name(s.names, name) {
                Some(i) => if s.names[i].1 != StorageTypes::Variable {
                    stop(s, ErrorKind::NameCollision, n)
                } else {
                    finish_var(run_seq(s, init, f), name, n)
                },
                None => finish_var(
                    run_seq(Rt { names: s.names.push((name, StorageTypes::Variable)), ..s }, init, f),
                    name,
                    n,
                ),
            },
            Node::Ident(name) => match find_var(s.vars, name, 0) {
                Some(i) => (push_val(s, s.vars[i].1), Ok(f)),
                None => match find_proc(s.procs, name) {
                    Some(k) => run_call(s, s.procs[k], n, f),
                    None => stop(s, ErrorKind::UnknownIdentifier, n),
                },
            },
            Node::Procedure(name, args, body) => if find_name(s.names, name) is Some {
                stop(s, ErrorKind::NameCollision, n)
            } else {
                (
                    Rt {
                        names: s.names.push((name, StorageTypes::Procedure)),
                        procs: s.procs.push(ProcV { name, args, body, isolated: true }),
                        ..s
                    },
                    Ok(f),
                )
            },
            Node::Macro(name, body) => if crate::globals::is_reserved(name) || find_name(
                s.names,
                name,
            ) is Some {
                stop(s, ErrorKind::NameCollision, n)
            } else {
                (
                    Rt {
                        names: s.names.push((name, StorageTypes::Procedure)),
                        procs: s.procs.push(
                            ProcV { name, args: Seq::empty(), body, isolated: false },
                        ),
                        ..s
                    },
                    Ok(f),
                )
            },
            Node::Str(b) => run_seq(s, b, f),
            Node::Import(_, b) => run_seq(s, b, f),
            _ => match step(s, n) {
                Ok(s1) => (s1, Ok(f)),
                Err(e) => (s, Err(e)),
            },
        }
    }
}

// ---------------------------------------------------------------------------
// The runtime
// ---------------------------------------------------------------------------

/// A declared procedure or macro.
#[derive(Debug)]
pub struct Routine {
    pub name: String,
    pub args: Vec<String>,
    pub body: Vec<Instruction>,
    pub isolated: bool,
}

pub open spec fn routine_view(r: Routine) -> ProcV {
    ProcV {
        name: r.name@,
        args: strings_view(r.args@),
        body: instrs_view(r.body@),
        isolated: r.isolated,
    }
}

/// Why a run stopped before the end of its instructions.
#[derive(Debug, Clone, PartialEq)]
pub enum Halt {
    Fail(Fault),
    Exit(u8),
}

impl View for Halt {
    type V = StopV;

    open spec fn view(&self) -> StopV {
        match self {
            Halt::Fail(f) => StopV::Fail(f@),
            Halt::Exit(c) => StopV::Exit(*c),
        }
    }
}

/// The exec result of running nodes stands for the spec outcome.
pub open spec fn res_view(r: Result<u64, Halt>) -> Result<nat, StopV> {
    match r {
        Ok(f) => Ok(f as nat),
        Err(h) => Err(h@),
    }
}

/// A program and the state of its run.
///
/// The stacks form an arena: slot `k` has a name, a liveness flag and its
/// values. The values of the active stack are held in `current` while it is
/// active (its slot in `stack_data` is then empty).
pub struct Program {
    pub instructions: Vec<Instruction>,
    pub file: String,
    pub stack_names: Vec<String>,
    pub stack_live: Vec<bool>,
    pub stack_data: Vec<Vec<DataTypes>>,
    pub current: Vec<DataTypes>,
    pub active: usize,
    pub variables: Vec<Binding>,
    pub frame: usize,
    pub routines: Vec<Routine>,
    pub names: Vec<NameEntry>,
    pub output: Vec<Output>,
    pub salt: String,
}

/// A state in which a run can go on: `main` is slot 0 and live, the active
/// stack is live, and the current frame lies within the bindings.
pub open spec fn rt_wf(s: Rt) -> bool {
    &&& s.stacks.len() >= 1
    &&& 0 <= s.active < s.stacks.len()
    &&& s.stacks[s.active].live
    &&& s.stacks[0].live
    &&& s.stacks[0].name == "main"@
    &&& 0 <= s.frame <= s.vars.len()
}

impl View for Program {
    type V = Rt;

    open spec fn view(&self) -> Rt {
        Rt {
            stacks: Seq::new(
                self.stack_names@.len(),
                |k: int|
                    SlotV {
                        name: self.stack_names@[k]@,
                        live: self.stack_live@[k],
                        items: if k == self.active {
                            self.current@
                        } else {
                            self.stack_data@[k]@
                        },
                    },
            ),
            active: self.active as int,
            vars: Seq::new(
                self.variables@.len(),
                |i: int| (self.variables@[i].name@, self.variables@[i].value),
            ),
            frame: self.frame as int,
            procs: Seq::new(self.routines@.len(), |i: int| routine_view(self.routines@[i])),
            names: Seq::new(self.names@.len(), |i: int| (self.names@[i].name@, self.names@[i].kind)),
            output: Seq::new(self.output@.len(), |i: int| self.output@[i]@),
            salt: self.salt@,
        }
    }
}

impl Program {
    pub open spec fn wf(&self) -> bool {
        &&& self.stack_live@.len() == self.stack_names@.len()
        &&& self.stack_data@.len() == self.stack_names@.len()
        &&& rt_wf(self@)
    }

    proof fn lemma_items(&self)
        requires
            self.wf(),
        ensures
            items(self@) == self.current@,
            self@.stacks.len() == self.stack_names@.len(),
    {
    }

    fn fail(n: &Instruction, kind: ErrorKind) -> (h: Halt)
        ensures
            h@ == StopV::Fail(fault(kind, instr_view(*n).line, instr_view(*n).file)),
    {
        Halt::Fail(Fault { kind, line_num: n.line_num, file_name: n.file_name.clone() })
    }
}

/// A node that does not run other nodes, and only touches the active stack
/// and the console.
pub open spec fn is_stack_op(n: Node) -> bool {
    n is Push || n is Pop || n is Print || n is PrintAscii || n is Dup || n is Swap || is_binary(n)
        || n is This || n is StackSize || n is StackRev || n is Exit
}

/// The exec result of one step stands for the spec step.
pub open spec fn step_matches(s: Rt, n: NodeAt, t: Rt, r: Result<(), Halt>) -> bool {
    match step(s, n) {
        Ok(s1) => r is Ok && t == s1,
        Err(e) => r matches Err(h) && h@ == e && t == s,
    }
}

pub open spec fn same_except_current_output(a: Program, b: Program) -> bool {
    &&& b.instructions == a.instructions
    &&& b.file == a.file
    &&& b.stack_names == a.stack_names
    &&& b.stack_live == a.stack_live
    &&& b.stack_data == a.stack_data
    &&& b.active == a.active
    &&& b.variables == a.variables
    &&& b.frame == a.frame
    &&& b.routines == a.routines
    &&& b.names == a.names
    &&& b.salt == a.salt
}

pub proof fn lemma_with_items(s: Rt)
    requires
        0 <= s.active < s.stacks.len(),
    ensures
        forall|x: Seq<DataTypes>| #[trigger] items(with_items(s, x)) == x,
        forall|x: Seq<DataTypes>, y: Seq<DataTypes>|
            #[trigger] with_items(with_items(s, x), y) == with_items(s, y),
        forall|x: Seq<DataTypes>| (#[trigger] with_items(s, x)).active == s.active,
        forall|x: Seq<DataTypes>| (#[trigger] with_items(s, x)).stacks.len() == s.stacks.len(),
{
    assert forall|x: Seq<DataTypes>, y: Seq<DataTypes>|
        #[trigger] with_items(with_items(s, x), y) == with_items(s, y) by {
        assert(with_items(with_items(s, x), y).stacks =~= with_items(s, y).stacks);
    }
}

proof fn lemma_current(a: Program, b: Program)
    requires
        a.wf(),
        same_except_current_output(a, b),
    ensures
        b.wf(),
        b@ == (Rt { output: b@.output, ..with_items(a@, b.current@) }),
{
    assert(b@.stacks =~= with_items(a@, b.current@).stacks);
}

proof fn lemma_emit(a: Program, b: Program, o: Output)
    requires
        b.output@ == a.output@.push(o),
    ensures
        b@.output == a@.output.push(o@),
{
    assert(b@.output =~= a@.output.push(o@));
}

impl Program {
    fn exec_stack_op(&mut self, n: &Instruction) -> (r: Result<(), Halt>)
        requires
            old(self).wf(),
            is_stack_op(instr_view(*n).node),
        ensures
            final(self).wf(),
            final(self).stack_names@.len() >= old(self).stack_names@.len(),
            step_matches(old(self)@, instr_view(*n), final(self)@, r),
    {
        let ghost a = *self;
        proof {
            self.lemma_items();
            lemma_with_items(a@);
        }
        let len = self.current.len();
        match &n.Instruction {
            Instructions::PUSH(b) => {
                self.current.push(DataTypes::INT(*b));
            },
            Instructions::POP => {
                if len < 1 {
                    return Err(Self::fail(n, ErrorKind::StackUnderflow));
                }
                self.current.pop();
            },
            Instructions::PRINT => {
                if len < 1 {
                    return Err(Self::fail(n, ErrorKind::StackUnderflow));
                }
                match self.current.pop() {
                    Some(DataTypes::INT(u)) => {
                        self.output.push(Output::Number(u));
                        proof {
                            lemma_emit(a, *self, Output::Number(u));
                        }
                    },
                    Some(DataTypes::STACKPOINTER(h)) => {
                        self.output.push(Output::Ref(h));
                        proof {
                            lemma_emit(a, *self, Output::Ref(h));
                        }
                    },
                    None => {},
                }
            },
            Instructions::PRINTASCII => {
                if len < 1 {
                    return Err(Self::fail(n, ErrorKind::StackUnderflow));
                }
                match self.current[len - 1] {
                    DataTypes::INT(u) => {
                        self.current.pop();
                        self.output.push(Output::Char(u));
                        proof {
                            lemma_emit(a, *self, Output::Char(u));
                        }
                    },
                    DataTypes::STACKPOINTER(_) => {
                        return Err(Self::fail(n, ErrorKind::TypeMismatch));
                    },
                }
            },
            Instructions::DUP => {
                if len < 1 {
                    return Err(Self::fail(n, ErrorKind::StackUnderflow));
                }
                let v = self.current[len - 1];
                self.current.push(v);
            },
            Instructions::SWAP => {
                if len < 2 {
                    return Err(Self::fail(n, ErrorKind::StackUnderflow));
                }
                let first = self.current[len - 1];
                let second = self.current[len - 2];
                self.current.pop();
                self.current.pop();
                self.current.push(first);
                self.current.push(second);
                proof {
                    assert(self.current@ =~= a.current@.subrange(0, len - 2).push(first).push(second));
                }
            },
            Instructions::ADD | Instructions::SUB | Instructions::MULT | Instructions::DIV
            | Instructions::EQ | Instructions::LT | Instructions::GT => {
                if len < 2 {
                    return Err(Self::fail(n, ErrorKind::StackUnderflow));
                }
                let (f, s) = match (self.current[len - 1], self.current[len - 2]) {
                    (DataTypes::INT(f), DataTypes::INT(s)) => (f, s),
                    _ => {
                        return Err(Self::fail(n, ErrorKind::TypeMismatch));
                    },
                };
                let v: u8 = match &n.Instruction {
                    Instructions::ADD => ((s as u16 + f as u16) % 256) as u8,
                    Instructions::SUB => ((s as u16 + 256 - f as u16) % 256) as u8,
                    Instructions::MULT => {
                        assert((s as u32) * (f as u32) <= 65025) by (nonlinear_arith)
                            requires
                                s <= 255,
                                f <= 255,
                        ;
                        (((s as u32) * (f as u32)) % 256) as u8
                    },
                    Instructions::DIV => {
                        if f == 0 {
                            return Err(Self::fail(n, ErrorKind::DivisionByZero));
                        }
                        s / f
                    },
                    Instructions::EQ => if s == f { 1 } else { 0 },
                    Instructions::LT => if s < f { 1 } else { 0 },
                    _ => if s > f { 1 } else { 0 },
                };
                self.current.pop();
                self.current.pop();
                self.current.push(DataTypes::INT(v));
                proof {
                    assert(self.current@ =~= a.current@.subrange(0, len - 2).push(DataTypes::INT(v)));
                }
            },
            Instructions::THIS => {
                self.current.push(DataTypes::STACKPOINTER(self.active));
            },
            Instructions::STACKSIZE => {
                self.current.push(DataTypes::INT((len % 256) as u8));
            },
            Instructions::STACKREV => {
                let mut rev: Vec<DataTypes> = Vec::new();
                while self.current.len() > 0
                    invariant
                        same_except_current_output(a, *self),
                        self.output == a.output,
                        self.current@.len() <= len,
                        len == a.current@.len(),
                        self.current@ == a.current@.subrange(0, self.current@.len() as int),
                        rev@ == a.current@.subrange(self.current@.len() as int, len as int).reverse(),
                    decreases self.current@.len(),
                {
                    let ghost k = self.current@.len();
                    let v = self.current.pop().unwrap();
                    rev.push(v);
                    assert(rev@ =~= a.current@.subrange(k - 1, len as int).reverse());
                    assert(self.current@ =~= a.current@.subrange(0, k - 1));
                }
                assert(rev@ =~= a.current@.reverse());
                self.current = rev;
            },
            Instructions::EXIT => {
                if len < 1 {
                    return Err(Self::fail(n, ErrorKind::StackUnderflow));
                }
                match self.current[len - 1] {
                    DataTypes::INT(c) => {
                        return Err(Halt::Exit(c));
                    },
                    DataTypes::STACKPOINTER(_) => {
                        return Err(Self::fail(n, ErrorKind::TypeMismatch));
                    },
                }
            },
            _ => {},
        }
        proof {
            lemma_current(a, *self);
        }
        Ok(())
    }
}

pub open spec fn opt_int(r: Option<usize>) -> Option<int> {
    match r {
        Some(i) => Some(i as int),
        None => None,
    }
}

impl Program {
    fn lookup_name(&self, n: &String) -> (r: Option<usize>)
        ensures
            opt_int(r) == find_name(self@.names, n@),
            r matches Some(i) ==> i < self.names@.len(),
    {
        let ghost v = self@.names;
        let mut k = self.names.len();
        assert(v.subrange(0, k as int) =~= v);
        while k > 0
            invariant
                k <= self.names@.len(),
                v == self@.names,
                find_name(v, n@) == find_name(v.subrange(0, k as int), n@),
            decreases k,
        {
            assert(v.subrange(0, k as int).subrange(0, k - 1) =~= v.subrange(0, k - 1));
            if self.names[k - 1].name == *n {
                return Some(k - 1);
            }
            k = k - 1;
        }
        None
    }

    fn lookup_var(&self, n: &String, lo: usize) -> (r: Option<usize>)
        ensures
            opt_int(r) == find_var(self@.vars, n@, lo as int),
            r matches Some(i) ==> i < self.variables@.len(),
    {
        let ghost v = self@.vars;
        let mut k = self.variables.len();
        assert(v.subrange(0, k as int) =~= v);
        while k > lo
            invariant
                k <= self.variables@.len(),
                v == self@.vars,
                find_var(v, n@, lo as int) == find_var(v.subrange(0, k as int), n@, lo as int),
            decreases k,
        {
            assert(v.subrange(0, k as int).subrange(0, k - 1) =~= v.subrange(0, k - 1));
            if self.variables[k - 1].name == *n {
                return Some(k - 1);
            }
            k = k - 1;
        }
        None
    }

    fn lookup_stack(&self, n: &String) -> (r: Option<usize>)
        requires
            self.wf(),
        ensures
            opt_int(r) == find_stack(self@.stacks, n@),
            r matches Some(i) ==> i < self.stack_names@.len(),
    {
        let ghost v = self@.stacks;
        let mut k = self.stack_names.len();
        assert(v.subrange(0, k as int) =~= v);
        while k > 0
            invariant
                self.wf(),
                k <= self.stack_names@.len(),
                v == self@.stacks,
                find_stack(v, n@) == find_stack(v.subrange(0, k as int), n@),
            decreases k,
        {
            assert(v.subrange(0, k as int).subrange(0, k - 1) =~= v.subrange(0, k - 1));
            if self.stack_live[k - 1] && self.stack_names[k - 1] == *n {
                return Some(k - 1);
            }
            k = k - 1;
        }
        None
    }

    fn lookup_routine(&self, n: &String) -> (r: Option<usize>)
        ensures
            opt_int(r) == find_proc(self@.procs, n@),
            r matches Some(i) ==> i < self.routines@.len(),
    {
        let ghost v = self@.procs;
        let mut k = self.routines.len();
        assert(v.subrange(0, k as int) =~= v);
        while k > 0
            invariant
                k <= self.routines@.len(),
                v == self@.procs,
                find_proc(v, n@) == find_proc(v.subrange(0, k as int), n@),
            decreases k,
        {
            assert(v.subrange(0, k as int).subrange(0, k - 1) =~= v.subrange(0, k - 1));
            if self.routines[k - 1].name == *n {
                return Some(k - 1);
            }
            k = k - 1;
        }
        None
    }

    fn exec_spawn(&mut self, n: &Instruction, name: &String) -> (r: Result<(), Halt>)
        requires
            old(self).wf(),
            instr_view(*n).node == Node::Spawn(name@),
        ensures
            final(self).wf(),
            final(self).stack_names@.len() >= old(self).stack_names@.len(),
            step_matches(old(self)@, instr_view(*n), final(self)@, r),
    {
        let ghost a = *self;
        proof {
            self.lemma_items();
        }
        if crate::globals::is_reserved_name(name) || self.lookup_name(name).is_some() {
            return Err(Self::fail(n, ErrorKind::NameCollision));
        }
        let h = self.stack_names.len();
        self.stack_names.push(name.clone());
        self.stack_live.push(true);
        self.stack_data.push(Vec::new());
        self.names.push(NameEntry { name: name.clone(), kind: StorageTypes::Stack });
        self.current.push(DataTypes::STACKPOINTER(h));
        proof {
            let t = Rt {
                stacks: a@.stacks.push(SlotV { name: name@, live: true, items: Seq::empty() }),
                names: a@.names.push((name@, StorageTypes::Stack)),
                ..a@
            };
            lemma_with_items(t);
            assert(self@.stacks =~= push_val(t, DataTypes::STACKPOINTER(h)).stacks);
            assert(self@.names =~= t.names);
        }
        Ok(())
    }

    fn exec_switch(&mut self, n: &Instruction) -> (r: Result<(), Halt>)
        requires
            old(self).wf(),
            instr_view(*n).node is Switch,
        ensures
            final(self).wf(),
            final(self).stack_names@.len() >= old(self).stack_names@.len(),
            step_matches(old(self)@, instr_view(*n), final(self)@, r),
    {
        let ghost a = *self;
        proof {
            self.lemma_items();
            lemma_with_items(a@);
        }
        let len = self.current.len();
        if len < 1 {
            return Err(Self::fail(n, ErrorKind::StackUnderflow));
        }
        let h = match self.current[len - 1] {
            DataTypes::INT(_) => {
                return Err(Self::fail(n, ErrorKind::TypeMismatch));
            },
            DataTypes::STACKPOINTER(h) => h,
        };
        if h >= self.stack_names.len() || !self.stack_live[h] {
            return Err(Self::fail(n, ErrorKind::MissingStack));
        }
        self.current.pop();
        let ghost b = *self;
        if h != self.active {
            let act = self.active;
            std::mem::swap(&mut self.current, &mut self.stack_data[act]);
            std::mem::swap(&mut self.current, &mut self.stack_data[h]);
            self.active = h;
        }
        proof {
            let d = drop_top(a@, 1);
            assert(self@.stacks =~= d.stacks);
        }
        Ok(())
    }

    fn exec_close(&mut self, n: &Instruction) -> (r: Result<(), Halt>)
        requires
            old(self).wf(),
            instr_view(*n).node is Close,
        ensures
            final(self).wf(),
            final(self).stack_names@.len() >= old(self).stack_names@.len(),
            step_matches(old(self)@, instr_view(*n), final(self)@, r),
    {
        let ghost a = *self;
        proof {
            self.lemma_items();
            lemma_with_items(a@);
        }
        let len = self.current.len();
        if len < 1 {
            return Err(Self::fail(n, ErrorKind::StackUnderflow));
        }
        let h = match self.current[len - 1] {
            DataTypes::INT(_) => {
                return Err(Self::fail(n, ErrorKind::TypeMismatch));
            },
            DataTypes::STACKPOINTER(h) => h,
        };
        if h >= self.stack_names.len() || !self.stack_live[h] {
            return Err(Self::fail(n, ErrorKind::MissingStack));
        }
        if h == 0 || h == self.active {
            return Err(Self::fail(n, ErrorKind::IllegalClose));
        }
        self.current.pop();
        self.stack_live.set(h, false);
        self.stack_data.set(h, Vec::new());
        proof {
            let d = drop_top(a@, 1);
            assert(self@.stacks =~= d.stacks.update(
                h as int,
                SlotV { name: d.stacks[h as int].name, live: false, items: Seq::empty() },
            ));
        }
        Ok(())
    }

    fn exec_stack_ref(&mut self, n: &Instruction, name: &String) -> (r: Result<(), Halt>)
        requires
            old(self).wf(),
            instr_view(*n).node == Node::Stack(name@),
        ensures
            final(self).wf(),
            final(self).stack_names@.len() >= old(self).stack_names@.len(),
            step_matches(old(self)@, instr_view(*n), final(self)@, r),
    {
        let ghost a = *self;
        proof {
            self.lemma_items();
            lemma_with_items(a@);
        }
        match self.lookup_stack(name) {
            Some(h) => {
                self.current.push(DataTypes::STACKPOINTER(h));
                proof {
                    lemma_current(a, *self);
                }
                Ok(())
            },
            None => Err(Self::fail(n, ErrorKind::MissingStack)),
        }
    }

    fn exec_stacks(&mut self, n: &Instruction) -> (r: Result<(), Halt>)
        requires
            old(self).wf(),
            instr_view(*n).node is Stacks,
        ensures
            final(self).wf(),
            final(self).stack_names@.len() >= old(self).stack_names@.len(),
            step_matches(old(self)@, instr_view(*n), final(self)@, r),
    {
        let ghost a = *self;
        let ghost st = a@.stacks;
        self.output.push(Output::StacksHeader);
        proof {
            lemma_emit(a, *self, Output::StacksHeader);
            assert(st.subrange(0, 0) =~= Seq::<SlotV>::empty());
            assert(self@.output =~= a@.output.push(OutV::StacksHeader) + listing(st.subrange(0, 0)));
        }
        let mut k: usize = 0;
        while k < self.stack_names.len()
            invariant
                same_except_current_output(a, *self),
                self.current == a.current,
                a.wf(),
                st == a@.stacks,
                k <= st.len(),
                self@.output == a@.output.push(OutV::StacksHeader) + listing(st.subrange(0, k as int)),
            decreases st.len() - k,
        {
            assert(st.subrange(0, k + 1).subrange(0, k as int) =~= st.subrange(0, k as int));
            if self.stack_live[k] {
                let ghost before = self@.output;
                self.output.push(Output::StackName(self.stack_names[k].clone()));
                assert(self@.output =~= before.push(OutV::StackName(st[k as int].name)));
            }
            k = k + 1;
        }
        proof {
            assert(st.subrange(0, st.len() as int) =~= st);
            assert(self@.stacks =~= a@.stacks);
        }
        Ok(())
    }

    fn exec_drop(&mut self, n: &Instruction, name: &String) -> (r: Result<(), Halt>)
        requires
            old(self).wf(),
            instr_view(*n).node == Node::Drop(name@),
        ensures
            final(self).wf(),
            final(self).stack_names@.len() >= old(self).stack_names@.len(),
            step_matches(old(self)@, instr_view(*n), final(self)@, r),
    {
        let ghost a = *self;
        match self.lookup_name(name) {
            Some(i) => {
                match self.names[i].kind {
                    StorageTypes::Variable => {},
                    _ => {
                        return Err(Self::fail(n, ErrorKind::UnknownIdentifier));
                    },
                }
            },
            None => {
                return Err(Self::fail(n, ErrorKind::UnknownIdentifier));
            },
        }
        match self.lookup_var(name, self.frame) {
            Some(j) => {
                self.variables.remove(j);
                proof {
                    assert(self@.vars =~= a@.vars.remove(j as int));
                    assert(self@.stacks =~= a@.stacks);
                }
            },
            None => {},
        }
        Ok(())
    }
}

impl Program {
    /// Binds `name` to `v` in the current frame.
    fn bind_var(&mut self, name: &String, v: DataTypes)
        requires
            old(self).wf(),
        ensures
            final(self).wf(),
            final(self).stack_names@.len() >= old(self).stack_names@.len(),
            final(self)@ == bind(old(self)@, name@, v),
            final(self).frame == old(self).frame,
    {
        let ghost a = *self;
        match self.lookup_var(name, self.frame) {
            Some(i) => {
                self.variables.set(i, Binding { name: name.clone(), value: v });
                assert(self@.vars =~= a@.vars.update(i as int, (name@, v)));
            },
            None => {
                self.variables.push(Binding { name: name.clone(), value: v });
                assert(self@.vars =~= a@.vars.push((name@, v)));
            },
        }
        assert(self@.stacks =~= a@.stacks);
    }

    /// Runs a sequence of nodes with `fuel` steps.
    pub fn exec_seq(&mut self, b: &Vec<Instruction>, fuel: u64) -> (r: Result<u64, Halt>)
        requires
            old(self).wf(),
        ensures
            final(self).wf(),
            final(self).stack_names@.len() >= old(self).stack_names@.len(),
            (final(self)@, res_view(r)) == run_seq(old(self)@, instrs_view(b@), fuel as nat),
            r matches Ok(f) ==> f <= fuel && final(self).frame == old(self).frame,
        decreases fuel, 1int, b@.len(),
    {
        let ghost s0 = self@;
        let ghost frame0 = self.frame;
        let ghost bv = instrs_view(b@);
        proof {
            lemma_instrs_view(b@);
            assert(bv.subrange(0, bv.len() as int) =~= bv);
        }
        let mut f = fuel;
        let mut k: usize = 0;
        while k < b.len()
            invariant
                self.wf(),
                s0 == old(self)@,
                frame0 == old(self).frame,
                self.stack_names@.len() >= old(self).stack_names@.len(),
                k <= b@.len(),
                f <= fuel,
                self.frame == frame0,
                bv == instrs_view(b@),
                bv.len() == b@.len(),
                forall|i: int| 0 <= i < b@.len() ==> #[trigger] bv[i] == instr_view(b@[i]),
                run_seq(s0, bv, fuel as nat) == run_seq(self@, bv.subrange(k as int, bv.len() as int), f as nat),
            decreases b@.len() - k,
        {
            let ghost rest = bv.subrange(k as int, bv.len() as int);
            assert(rest[0] == bv[k as int]);
            assert(rest.subrange(1, rest.len() as int) =~= bv.subrange(k + 1, bv.len() as int));
            let ghost before = self@;
            match self.exec_instr(&b[k], f) {
                Err(h) => {
                    assert(run_seq(before, rest, f as nat) == (self@, res_view(Err::<u64, Halt>(h))));
                    return Err(h);
                },
                Ok(f1) => {
                    f = f1;
                    k = k + 1;
                },
            }
        }
        proof {
            assert(bv.subrange(k as int, bv.len() as int) =~= Seq::<NodeAt>::empty());
        }
        Ok(f)
    }

    fn exec_while(&mut self, c: &Vec<Instruction>, body: &Vec<Instruction>, n: &Instruction, fuel: u64) -> (r: Result<u64, Halt>)
        requires
            old(self).wf(),
        ensures
            final(self).wf(),
            final(self).stack_names@.len() >= old(self).stack_names@.len(),
            (final(self)@, res_view(r)) == run_while(
                old(self)@,
                instrs_view(c@),
                instrs_view(body@),
                instr_view(*n),
                fuel as nat,
            ),
            r matches Ok(f) ==> f <= fuel && final(self).frame == old(self).frame,
        decreases fuel, 2int, 0int,
    {
        let ghost s0 = self@;
        let ghost frame0 = self.frame;
        let ghost cv = instrs_view(c@);
        let ghost bv = instrs_view(body@);
        let ghost nv = instr_view(*n);
        let mut cur = fuel;
        assert(run_while(s0, cv, bv, nv, fuel as nat) == run_while(self@, cv, bv, nv, cur as nat));
        loop
            invariant
                self.wf(),
                s0 == old(self)@,
                frame0 == old(self).frame,
                self.stack_names@.len() >= old(self).stack_names@.len(),
                cur <= fuel,
                self.frame == frame0,
                cv == instrs_view(c@),
                bv == instrs_view(body@),
                nv == instr_view(*n),
                run_while(s0, cv, bv, nv, fuel as nat) == run_while(self@, cv, bv, nv, cur as nat),
            decreases cur,
        {
            let ghost w0 = self@;
            let f1 = match self.exec_seq(c, cur) {
                Err(h) => {
                    assert(run_while(w0, cv, bv, nv, cur as nat) == (self@, res_view(Err::<u64, Halt>(h))));
                    return Err(h);
                },
                Ok(f1) => f1,
            };
            proof {
                self.lemma_items();
                lemma_with_items(self@);
            }
            let len = self.current.len();
            if len < 1 {
                return Err(Self::fail(n, ErrorKind::StackUnderflow));
            }
            let top = self.current[len - 1];
            if top == DataTypes::INT(0) {
                let ghost a = *self;
                self.current.pop();
                proof {
                    lemma_current(a, *self);
                }
                return Ok(f1);
            } else if top == DataTypes::INT(1) {
                let ghost a = *self;
                self.current.pop();
                proof {
                    lemma_current(a, *self);
                }
                let f2 = match self.exec_seq(body, f1) {
                    Err(h) => {
                        assert(run_while(w0, cv, bv, nv, cur as nat) == (self@, res_view(Err::<u64, Halt>(h))));
                        return Err(h);
                    },
                    Ok(f2) => f2,
                };
                if f2 == 0 {
                    return Err(Self::fail(n, ErrorKind::OutOfFuel));
                }
                cur = f2 - 1;
            } else {
                return Err(Self::fail(n, ErrorKind::InvalidBoolean));
            }
        }
    }

    fn exec_var(&mut self, d: &VariableDefine, n: &Instruction, fuel: u64) -> (r: Result<u64, Halt>)
        requires
            old(self).wf(),
            instr_view(*n).node == Node::VarDeclare(d.name@, instrs_view(d.instructions@)),
            fuel < u64::MAX,
        ensures
            final(self).wf(),
            final(self).stack_names@.len() >= old(self).stack_names@.len(),
            (final(self)@, res_view(r)) == run_instr(old(self)@, instr_view(*n), (fuel + 1) as nat),
            r matches Ok(f) ==> f <= fuel && final(self).frame == old(self).frame,
        decreases fuel, 3int, 0int,
    {
        let ghost a = *self;
        match self.lookup_name(&d.name) {
            Some(i) => {
                match self.names[i].kind {
                    StorageTypes::Variable => {},
                    _ => {
                        return Err(Self::fail(n, ErrorKind::NameCollision));
                    },
                }
            },
            None => {
                self.names.push(NameEntry { name: d.name.clone(), kind: StorageTypes::Variable });
                proof {
                    assert(self@.names =~= a@.names.push((d.name@, StorageTypes::Variable)));
                    assert(self@.stacks =~= a@.stacks);
                }
            },
        }
        let f1 = match self.exec_seq(&d.instructions, fuel) {
            Err(h) => {
                return Err(h);
            },
            Ok(f1) => f1,
        };
        proof {
            self.lemma_items();
            lemma_with_items(self@);
        }
        let len = self.current.len();
        if len < 1 {
            return Err(Self::fail(n, ErrorKind::StackUnderflow));
        }
        let ghost b = *self;
        let v = self.current.pop().unwrap();
        proof {
            lemma_current(b, *self);
        }
        self.bind_var(&d.name, v);
        Ok(f1)
    }
}

impl Program {
    /// Calls routine `p`: a macro runs in place; a procedure gets its
    /// parameters in a fresh frame and a private stack, and returns to `main`.
    fn exec_call(&mut self, p: &Routine, n: &Instruction, fuel: u64) -> (r: Result<u64, Halt>)
        requires
            old(self).wf(),
        ensures
            final(self).wf(),
            final(self).stack_names@.len() >= old(self).stack_names@.len(),
            (final(self)@, res_view(r)) == run_call(old(self)@, routine_view(*p), instr_view(*n), fuel as nat),
            r matches Ok(f) ==> f <= fuel && final(self).frame == old(self).frame,
        decreases fuel, 3int, 0int,
    {
        if !p.isolated {
            return self.exec_seq(&p.body, fuel);
        }
        let ghost s0 = self@;
        let ghost pv = routine_view(*p);
        proof {
            self.lemma_items();
            lemma_with_items(s0);
        }
        let nargs = p.args.len();
        if self.current.len() < nargs {
            return Err(Self::fail(n, ErrorKind::StackUnderflow));
        }
        let saved_frame = self.frame;
        let base = self.variables.len();
        let ghost a = *self;
        let mut i: usize = 0;
        while i < nargs
            invariant
                same_except_current_output(
                    Program { variables: a.variables, ..a },
                    Program { variables: a.variables, ..*self },
                ),
                self.output == a.output,
                a.wf(),
                s0 == a@,
                pv == routine_view(*p),
                nargs == p.args@.len(),
                i <= nargs,
                nargs <= a.current@.len(),
                base == a.variables@.len(),
                self.current@ == a.current@.subrange(0, a.current@.len() - i),
                self.variables@.len() == base + i,
                forall|j: int| 0 <= j < base ==> #[trigger] self.variables@[j] == a.variables@[j],
                forall|j: int|
                    0 <= j < i ==> #[trigger] self.variables@[base + j] == (Binding {
                        name: p.args@[j],
                        value: a.current@[a.current@.len() - 1 - j],
                    }),
            decreases nargs - i,
        {
            let v = self.current.pop().unwrap();
            self.variables.push(Binding { name: p.args[i].clone(), value: v });
            i = i + 1;
        }
        proof {
            a.lemma_items();
        }
        self.frame = base;
        let h = self.stack_names.len();
        self.stack_names.push(self.salt.clone());
        self.stack_live.push(true);
        self.stack_data.push(Vec::new());
        let act = self.active;
        std::mem::swap(&mut self.current, &mut self.stack_data[act]);
        std::mem::swap(&mut self.current, &mut self.stack_data[h]);
        self.active = h;
        proof {
            let e = enter(s0, pv);
            assert(items(s0) == a.current@);
            assert forall|j: int| 0 <= j < self@.vars.len() implies #[trigger] self@.vars[j] == e.vars[j] by {
                if j >= base {
                    let i = j - base;
                    assert(self.variables@[base + i] == (Binding {
                        name: p.args@[i],
                        value: a.current@[a.current@.len() - 1 - i],
                    }));
                    assert(strings_view(p.args@)[i] == p.args@[i]@);
                } else {
                    assert(self.variables@[j] == a.variables@[j]);
                }
            }
            assert(self@.vars =~= e.vars);
            assert(self@.stacks =~= e.stacks);
            assert(self@ == e);
        }
        let ghost e = self@;
        let f = match self.exec_seq(&p.body, fuel) {
            Err(x) => {
                return Err(x);
            },
            Ok(f) => f,
        };
        let ghost s3 = self@;
        let act = self.active;
        if act != 0 {
            std::mem::swap(&mut self.current, &mut self.stack_data[act]);
            std::mem::swap(&mut self.current, &mut self.stack_data[0]);
            self.active = 0;
        }
        self.stack_live.set(h, false);
        self.stack_data.set(h, Vec::new());
        self.variables.truncate(base);
        self.frame = saved_frame;
        proof {
            let l = leave(s3, h as int, s0.frame, s0.vars.len() as int);
            assert(self@.stacks =~= l.stacks);
            assert(self@.vars =~= l.vars);
            assert(self@ == l);
        }
        Ok(f)
    }

    fn exec_ident(&mut self, name: &String, n: &Instruction, fuel: u64) -> (r: Result<u64, Halt>)
        requires
            old(self).wf(),
            instr_view(*n).node == Node::Ident(name@),
            fuel < u64::MAX,
        ensures
            final(self).wf(),
            final(self).stack_names@.len() >= old(self).stack_names@.len(),
            (final(self)@, res_view(r)) == run_instr(old(self)@, instr_view(*n), (fuel + 1) as nat),
            r matches Ok(f) ==> f <= fuel && final(self).frame == old(self).frame,
        decreases fuel, 4int, 0int,
    {
        let ghost a = *self;
        proof {
            self.lemma_items();
        }
        match self.lookup_var(name, 0) {
            Some(i) => {
                let v = self.variables[i].value;
                self.current.push(v);
                proof {
                    lemma_current(a, *self);
                }
                Ok(fuel)
            },
            None => {
                match self.lookup_routine(name) {
                    Some(k) => {
                        let r = Routine {
                            name: self.routines[k].name.clone(),
                            args: copy_strings(&self.routines[k].args),
                            body: copy_instructions(&self.routines[k].body),
                            isolated: self.routines[k].isolated,
                        };
                        assert(routine_view(r) == a@.procs[k as int]);
                        self.exec_call(&r, n, fuel)
                    },
                    None => Err(Self::fail(n, ErrorKind::UnknownIdentifier)),
                }
            },
        }
    }

    fn exec_declare(&mut self, n: &Instruction, fuel: u64) -> (r: Result<u64, Halt>)
        requires
            old(self).wf(),
            instr_view(*n).node is Procedure || instr_view(*n).node is Macro,
            fuel < u64::MAX,
        ensures
            final(self).wf(),
            final(self).stack_names@.len() >= old(self).stack_names@.len(),
            (final(self)@, res_view(r)) == run_instr(old(self)@, instr_view(*n), (fuel + 1) as nat),
            r matches Ok(f) ==> f <= fuel && final(self).frame == old(self).frame,
    {
        let ghost a = *self;
        let (name, args, body, isolated) = match &n.Instruction {
            Instructions::PROCEDURE(p) => {
                (&p.name, copy_strings(&p.args), copy_instructions(&p.instructions), true)
            },
            Instructions::MACRO(m) => {
                if is_reserved_name(&m.name) {
                    return Err(Self::fail(n, ErrorKind::NameCollision));
                }
                let none: Vec<String> = Vec::new();
                assert(strings_view(none@) =~= Seq::<Seq<char>>::empty());
                (&m.name, none, copy_instructions(&m.instructions), false)
            },
            _ => {
                return Err(Self::fail(n, ErrorKind::NameCollision));
            },
        };
        if self.lookup_name(name).is_some() {
            return Err(Self::fail(n, ErrorKind::NameCollision));
        }
        self.names.push(NameEntry { name: name.clone(), kind: StorageTypes::Procedure });
        let r = Routine { name: name.clone(), args, body, isolated };
        self.routines.push(r);
        proof {
            assert(self@.names =~= a@.names.push((name@, StorageTypes::Procedure)));
            assert(self@.procs =~= a@.procs.push(routine_view(r)));
            assert(self@.stacks =~= a@.stacks);
        }
        Ok(fuel)
    }

    /// Runs one node with `fuel` steps.
    pub fn exec_instr(&mut self, n: &Instruction, fuel: u64) -> (r: Result<u64, Halt>)
        requires
            old(self).wf(),
        ensures
            final(self).wf(),
            final(self).stack_names@.len() >= old(self).stack_names@.len(),
            (final(self)@, res_view(r)) == run_instr(old(self)@, instr_view(*n), fuel as nat),
            r matches Ok(f) ==> f < fuel && final(self).frame == old(self).frame,
        decreases fuel, 0int, 0int,
    {
        if fuel == 0 {
            return Err(Self::fail(n, ErrorKind::OutOfFuel));
        }
        let f = fuel - 1;
        let ghost a = *self;
        proof {
            self.lemma_items();
            lemma_with_items(a@);
        }
        let step = match &n.Instruction {
            Instructions::If(b) => {
                let len = self.current.len();
                if len < 1 {
                    return Err(Self::fail(n, ErrorKind::StackUnderflow));
                }
                let top = self.current[len - 1];
                if top == DataTypes::INT(1) {
                    self.current.pop();
                    proof {
                        lemma_current(a, *self);
                    }
                    return self.exec_seq(&b.If, f);
                } else if top == DataTypes::INT(0) {
                    self.current.pop();
                    proof {
                        lemma_current(a, *self);
                    }
                    return self.exec_seq(&b.Else, f);
                } else {
                    return Err(Self::fail(n, ErrorKind::InvalidBoolean));
                }
            },
            Instructions::While(w) => {
                return self.exec_while(&w.Cond, &w.Contents, n, f);
            },
            Instructions::VARDECLARE(d) => {
                return self.exec_var(d, n, f);
            },
            Instructions::IDENTIFIER(name) => {
                return self.exec_ident(name, n, f);
            },
            Instructions::PROCEDURE(_) | Instructions::MACRO(_) => {
                return self.exec_declare(n, f);
            },
            Instructions::STRING(v) => {
                return self.exec_seq(v, f);
            },
            Instructions::IMPORT(_, v) => {
                return self.exec_seq(v, f);
            },
            Instructions::SPAWN(name) => self.exec_spawn(n, name),
            Instructions::SWITCH => self.exec_switch(n),
            Instructions::CLOSE => self.exec_close(n),
            Instructions::STACK(name) => self.exec_stack_ref(n, name),
            Instructions::STACKS => self.exec_stacks(n),
            Instructions::DROP(name) => self.exec_drop(n, name),
            _ => self.exec_stack_op(n),
        };
        match step {
            Ok(()) => Ok(f),
            Err(h) => Err(h),
        }
    }
}

// ---------------------------------------------------------------------------
// Starting a run
// ---------------------------------------------------------------------------

pub open spec fn is_ascii_alnum(c: char) -> bool {
    ('a' <= c <= 'z') || ('A' <= c <= 'Z') || ('0' <= c <= '9')
}

/// Relies on rand's `DistString::sample_string` over the `Alphanumeric`
/// distribution, with the thread-local generator: ten random ASCII letters
/// and digits. It names the private stacks of procedure calls.
#[verifier::external_body]
fn random_stack_name() -> (r: String)
    ensures
        r@.len() == 10,
        forall|i: int| 0 <= i < r@.len() ==> is_ascii_alnum(#[trigger] r@[i]),
{
    rand::distributions::DistString::sample_string(
        &rand::distributions::Alphanumeric,
        &mut rand::thread_rng(),
        10,
    )
}

/// The state at the start of a run: the empty `main` stack, active and
/// registered, and nothing else.
pub open spec fn initial(salt: Seq<char>) -> Rt {
    Rt {
        stacks: seq![SlotV { name: "main"@, live: true, items: Seq::empty() }],
        active: 0,
        vars: Seq::empty(),
        frame: 0,
        procs: Seq::empty(),
        names: seq![("main"@, StorageTypes::Stack)],
        output: Seq::empty(),
        salt,
    }
}

/// The fuel that `simulate` gives a run.
pub const FULL_FUEL: u64 = 0xffff_ffff_ffff_ffff;

impl Program {
    pub closed spec fn code(&self) -> Seq<NodeAt> {
        instrs_view(self.instructions@)
    }

    /// A program about to run `instructions`, read from `file`; `salt` names
    /// the private stacks of procedure calls.
    pub fn with_salt(instructions: Vec<Instruction>, file: String, salt: String) -> (r: Self)
        ensures
            r.wf(),
            r@ == initial(salt@),
            r.code() == instrs_view(instructions@),
    {
        let mut stack_names: Vec<String> = Vec::new();
        stack_names.push("main".to_owned());
        let mut stack_live: Vec<bool> = Vec::new();
        stack_live.push(true);
        let mut stack_data: Vec<Vec<DataTypes>> = Vec::new();
        stack_data.push(Vec::new());
        let mut names: Vec<NameEntry> = Vec::new();
        names.push(NameEntry { name: "main".to_owned(), kind: StorageTypes::Stack });
        let r = Program {
            instructions,
            file,
            stack_names,
            stack_live,
            stack_data,
            current: Vec::new(),
            active: 0,
            variables: Vec::new(),
            frame: 0,
            routines: Vec::new(),
            names,
            output: Vec::new(),
            salt,
        };
        assert(r@.stacks =~= initial(salt@).stacks);
        assert(r@.names =~= initial(salt@).names);
        assert(r@.vars =~= Seq::<(Seq<char>, DataTypes)>::empty());
        assert(r@.procs =~= Seq::<ProcV>::empty());
        assert(r@.output =~= Seq::<OutV>::empty());
        r
    }

    /// A program about to run `instructions`, with a randomly drawn name for
    /// the private stacks of procedure calls.
    pub fn new(instructions: Vec<Instruction>, file: String) -> (r: Self)
        ensures
            r.wf(),
            r@ == initial(r@.salt),
            r@.salt.len() == 10,
            r.code() == instrs_view(instructions@),
    {
        let salt = random_stack_name();
        Self::with_salt(instructions, file, salt)
    }

    /// Runs the program's instructions with `fuel` steps.
    pub fn run(&mut self, fuel: u64) -> (r: Result<u64, Halt>)
        requires
            old(self).wf(),
        ensures
            final(self).wf(),
            (final(self)@, res_view(r)) == run_seq(old(self)@, old(self).code(), fuel as nat),
            final(self).code() == old(self).code(),
    {
        let mut code: Vec<Instruction> = Vec::new();
        std::mem::swap(&mut code, &mut self.instructions);
        let ghost before = self@;
        assert(before == old(self)@) by {
            assert(before.stacks =~= old(self)@.stacks);
        }
        let r = self.exec_seq(&code, fuel);
        self.instructions = code;
        assert(self@.stacks =~= run_seq(before, instrs_view(code@), fuel as nat).0.stacks);
        r
    }

    /// Runs the program's instructions to the end, to an `exit`, or to the
    /// first fault.
    pub fn simulate(&mut self) -> (r: Result<(), Halt>)
        requires
            old(self).wf(),
        ensures
            final(self).wf(),
            final(self)@ == run_seq(old(self)@, old(self).code(), FULL_FUEL as nat).0,
            r is Ok <==> run_seq(old(self)@, old(self).code(), FULL_FUEL as nat).1 is Ok,
            r matches Err(h) ==> run_seq(old(self)@, old(self).code(), FULL_FUEL as nat).1 == Err::<
                nat,
                StopV,
            >(h@),
    {
        match self.run(FULL_FUEL) {
            Ok(_) => Ok(()),
            Err(h) => Err(h),
        }
    }

    /// What the run has written so far.
    pub fn output(&self) -> (r: &Vec<Output>)
        ensures
            r@.len() == self@.output.len(),
            forall|i: int| 0 <= i < r@.len() ==> #[trigger] r@[i]@ == self@.output[i],
    {
        &self.output
    }

    /// The values of the active stack, bottom first.
    pub fn active_stack(&self) -> (r: &Vec<DataTypes>)
        requires
            self.wf(),
        ensures
            r@ == items(self@),
    {
        &self.current
    }

    /// The names of the live stacks, in the order they were made.
    pub fn live_stacks(&self) -> (r: Vec<String>)
        requires
            self.wf(),
        ensures
            r@.len() == listing(self@.stacks).len(),
            forall|i: int|
                0 <= i < r@.len() ==> listing(self@.stacks)[i] == OutV::StackName(#[trigger] r@[i]@),
    {
        let ghost st = self@.stacks;
        let mut r: Vec<String> = Vec::new();
        let mut k: usize = 0;
        assert(st.subrange(0, 0) =~= Seq::<SlotV>::empty());
        while k < self.stack_names.len()
            invariant
                self.wf(),
                st == self@.stacks,
                k <= st.len(),
                r@.len() == listing(st.subrange(0, k as int)).len(),
                forall|i: int|
                    0 <= i < r@.len() ==> listing(st.subrange(0, k as int))[i] == OutV::StackName(
                        #[trigger] r@[i]@,
                    ),
            decreases st.len() - k,
        {
            assert(st.subrange(0, k + 1).subrange(0, k as int) =~= st.subrange(0, k as int));
            if self.stack_live[k] {
                r.push(self.stack_names[k].clone());
            }
            k = k + 1;
        }
        assert(st.subrange(0, st.len() as int) =~= st);
        r
    }
}

} // verus!
