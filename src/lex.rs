//! The scanner: from source text to tokens.
//!
//! `using <path>` becomes an `IMPORT` token with no tokens of its own: the
//! caller reads that file, scans it, and fills them in.
use vstd::prelude::*;
use crate::globals::{
    ErrorKind, Fault, OpCodes, Operation, Tok, TokAt, lemma_ops_view_push, op_view, ops_view,
};
use crate::parser::fault;

verus! {

// ---------------------------------------------------------------------------
// Character classes of std
// ---------------------------------------------------------------------------

/// What `char::is_whitespace` returns: the Unicode White_Space property.
pub uninterp spec fn char_is_whitespace(c: char) -> bool;

/// What `char::is_alphanumeric` returns: Alphabetic or Numeric.
pub uninterp spec fn char_is_alphanumeric(c: char) -> bool;

/// What `char::is_numeric` returns: the Unicode numeric categories.
pub uninterp spec fn char_is_numeric(c: char) -> bool;

/// What `char::is_alphabetic` returns: the Unicode Alphabetic property.
pub uninterp spec fn char_is_alphabetic(c: char) -> bool;

/// Relies on `char::is_whitespace`, which depends on the character alone.
#[verifier::external_body]
fn is_whitespace(c: char) -> (r: bool)
    ensures
        r == char_is_whitespace(c),
{
    c.is_whitespace()
}

/// Relies on `char::is_alphanumeric`, which depends on the character alone.
#[verifier::external_body]
fn is_alphanumeric(c: char) -> (r: bool)
    ensures
        r == char_is_alphanumeric(c),
{
    c.is_alphanumeric()
}

/// Relies on `char::is_numeric`, which depends on the character alone.
#[verifier::external_body]
fn is_numeric(c: char) -> (r: bool)
    ensures
        r == char_is_numeric(c),
{
    c.is_numeric()
}

/// Relies on `char::is_alphabetic`, which depends on the character alone.
#[verifier::external_body]
fn is_alphabetic(c: char) -> (r: bool)
    ensures
        r == char_is_alphabetic(c),
{
    c.is_alphabetic()
}

/// Relies on `str::chars` collected into a `Vec`: the characters in order.
#[verifier::external_body]
fn chars_of(text: &str) -> (r: Vec<char>)
    ensures
        r@ == text@,
{
    text.chars().collect()
}

/// Relies on collecting characters into a `String` (`FromIterator<char>`):
/// the characters `cs[from..to]` in order.
#[verifier::external_body]
fn string_of(cs: &Vec<char>, from: usize, to: usize) -> (r: String)
    requires
        from <= to <= cs@.len(),
    ensures
        r@ == cs@.subrange(from as int, to as int),
{
    cs[from..to].iter().collect()
}

// ---------------------------------------------------------------------------
// The token grammar
// ---------------------------------------------------------------------------

/// The characters that continue a word.
#[derive(Clone, Copy)]
pub enum Run {
    Word,
    Digits,
    Path,
}

pub open spec fn in_run(k: Run, c: char) -> bool {
    c != '\n' && match k {
        Run::Word => char_is_alphanumeric(c) || c == '_',
        Run::Digits => char_is_numeric(c),
        Run::Path => !char_is_whitespace(c),
    }
}

/// The end of the run of characters of kind `k` that starts at `pos`.
pub open spec fn run_end(cs: Seq<char>, pos: int, k: Run) -> int
    decreases cs.len() - pos,
{
    if 0 <= pos < cs.len() && in_run(k, cs[pos]) {
        run_end(cs, pos + 1, k)
    } else {
        pos
    }
}

/// The value of a string of ASCII digits, if it is one and fits in a byte.
pub open spec fn decimal(ds: Seq<char>) -> Option<int>
    decreases ds.len(),
{
    if ds.len() == 0 {
        Some(0)
    } else {
        let c = ds[ds.len() - 1];
        match decimal(ds.subrange(0, ds.len() - 1)) {
            Some(v) => if '0' <= c <= '9' && v * 10 + (c as int - '0' as int) <= 255 {
                Some(v * 10 + (c as int - '0' as int))
            } else {
                None
            },
            None => None,
        }
    }
}

/// The token of a keyword or operator word, if `w` is one.
pub open spec fn keyword(w: Seq<char>) -> Option<Tok> {
    if w == "dup"@ {
        Some(Tok::Dup)
    } else if w == "swap"@ {
        Some(Tok::Swap)
    } else if w == "pop"@ {
        Some(Tok::Pop)
    } else if w == "if"@ {
        Some(Tok::If)
    } else if w == "else"@ {
        Some(Tok::Else)
    } else if w == "while"@ {
        Some(Tok::While)
    } else if w == "end"@ {
        Some(Tok::End)
    } else if w == "do"@ {
        Some(Tok::Do)
    } else if w == "+"@ {
        Some(Tok::Add)
    } else if w == "-"@ {
        Some(Tok::Sub)
    } else if w == "print"@ {
        Some(Tok::Print)
    } else if w == "print_ascii"@ {
        Some(Tok::PrintAscii)
    } else if w == "="@ {
        Some(Tok::Eq)
    } else if w == "<"@ {
        Some(Tok::Lt)
    } else if w == ">"@ {
        Some(Tok::Gt)
    } else if w == "*"@ {
        Some(Tok::Mult)
    } else if w == "def"@ {
        Some(Tok::Define)
    } else if w == "switch"@ {
        Some(Tok::Switch)
    } else if w == "close"@ {
        Some(Tok::Close)
    } else if w == "this"@ {
        Some(Tok::This)
    } else if w == "stacks"@ {
        Some(Tok::Stacks)
    } else if w == "stack_size"@ {
        Some(Tok::StackSize)
    } else if w == "stack_rev"@ {
        Some(Tok::StackRev)
    } else if w == "procedure"@ {
        Some(Tok::Procedure)
    } else if w == "in"@ {
        Some(Tok::In)
    } else if w == "exit"@ {
        Some(Tok::Exit)
    } else {
        None
    }
}

/// Words followed by a name: `spawn`, `stack`, `macro` and `using`.
#[derive(Clone, Copy)]
pub enum Named {
    Spawn,
    Stack,
    Macro,
    Using,
}

pub open spec fn named_word(w: Seq<char>) -> Option<Named> {
    if w == "spawn"@ {
        Some(Named::Spawn)
    } else if w == "stack"@ {
        Some(Named::Stack)
    } else if w == "macro"@ {
        Some(Named::Macro)
    } else if w == "using"@ {
        Some(Named::Using)
    } else {
        None
    }
}

/// The characters of a string literal from `pos` (just after the opening
/// quote) up to the closing quote, with `\n` read as a newline (a backslash
/// before any other character drops both); and the position after the
/// closing quote. `None` if the literal is not closed.
pub open spec fn lit_body(cs: Seq<char>, pos: int) -> Option<(Seq<char>, int)>
    decreases cs.len() - pos,
{
    if pos < 0 || pos >= cs.len() {
        None
    } else if cs[pos] == '"' {
        Some((Seq::empty(), pos + 1))
    } else if cs[pos] == '\\' {
        if pos + 1 >= cs.len() {
            None
        } else {
            match lit_body(cs, pos + 2) {
                Some((b, e)) => Some((if cs[pos + 1] == 'n' { seq!['\n'] + b } else { b }, e)),
                None => None,
            }
        }
    } else {
        match lit_body(cs, pos + 1) {
            Some((b, e)) => Some((seq![cs[pos]] + b, e)),
            None => None,
        }
    }
}

/// The name of the private stack of a string literal: the letters of each of
/// its first three words, each followed by `_`. `words` counts the words
/// begun so far; `in_word` tells whether `s[i - 1]` belongs to a word.
pub open spec fn name_scan(s: Seq<char>, i: int, words: nat, in_word: bool) -> Seq<char>
    decreases s.len() - i,
{
    if i < 0 || i >= s.len() {
        if in_word {
            seq!['_']
        } else {
            Seq::empty()
        }
    } else if char_is_whitespace(s[i]) {
        if in_word {
            seq!['_'] + name_scan(s, i + 1, words, false)
        } else {
            name_scan(s, i + 1, words, false)
        }
    } else if !in_word && words >= 3 {
        Seq::empty()
    } else {
        let w = if in_word {
            words
        } else {
            words + 1
        };
        (if char_is_alphabetic(s[i]) {
            seq![s[i]]
        } else {
            Seq::empty()
        }) + name_scan(s, i + 1, w, true)
    }
}

pub open spec fn literal_name(s: Seq<char>) -> Seq<char> {
    name_scan(s, 0, 0, false)
}

/// The byte that a character pushes.
pub open spec fn byte_of(c: char) -> u8 {
    (c as u32 % 256) as u8
}

pub open spec fn tok_at(t: Tok, line: u8) -> TokAt {
    TokAt { tok: t, line }
}

/// The tokens that a string literal stands for: a fresh stack named after
/// its words, one push per character into it, back to `main`, and a handle
/// to the new stack left on `main`.
pub open spec fn literal_tokens(content: Seq<char>, name: Seq<char>, line: u8) -> Seq<TokAt> {
    seq![tok_at(Tok::Spawn(name), line), tok_at(Tok::Dup, line), tok_at(Tok::Switch, line)]
        + Seq::new(content.len(), |i: int| tok_at(Tok::Push(byte_of(content[i])), line))
        + seq![
        tok_at(Tok::Stack("main"@), line),
        tok_at(Tok::Switch, line),
        tok_at(Tok::Stack(name), line),
    ]
}

/// The position of the first newline at or after `pos` (or the end).
pub open spec fn line_end(cs: Seq<char>, pos: int) -> int
    decreases cs.len() - pos,
{
    if 0 <= pos < cs.len() && cs[pos] != '\n' {
        line_end(cs, pos + 1)
    } else {
        pos
    }
}

/// One step of the scanner at `pos`.
pub enum Lexed {
    Done,
    Skip(int, u8),
    Token(TokAt, int),
    Fail(u8),
}

pub open spec fn next_line(line: u8) -> u8 {
    if line == 255 {
        255
    } else {
        (line + 1) as u8
    }
}

pub open spec fn lex_step(cs: Seq<char>, pos: int, line: u8) -> Lexed {
    if pos < 0 || pos >= cs.len() {
        Lexed::Done
    } else {
        let c = cs[pos];
        if c == '\n' {
            Lexed::Skip(pos + 1, next_line(line))
        } else if char_is_whitespace(c) {
            Lexed::Skip(pos + 1, line)
        } else if char_is_numeric(c) {
            let e = run_end(cs, pos + 1, Run::Digits);
            match decimal(cs.subrange(pos, e)) {
                Some(v) => Lexed::Token(tok_at(Tok::Push(v as u8), line), e),
                None => Lexed::Fail(line),
            }
        } else if c == '/' {
            if pos + 1 < cs.len() && cs[pos + 1] == '/' {
                Lexed::Skip(line_end(cs, pos + 2), line)
            } else {
                Lexed::Token(tok_at(Tok::Div, line), pos + 1)
            }
        } else if c == '@' {
            if pos + 1 >= cs.len() {
                Lexed::Fail(line)
            } else {
                let e = run_end(cs, pos + 2, Run::Word);
                Lexed::Token(tok_at(Tok::VarDeclare(cs.subrange(pos + 1, e)), line), e)
            }
        } else if c == '"' {
            match lit_body(cs, pos + 1) {
                None => Lexed::Fail(line),
                Some((content, e)) => Lexed::Token(
                    tok_at(Tok::Str(literal_tokens(content, literal_name(content), line)), line),
                    e,
                ),
            }
        } else {
            let e = run_end(cs, pos + 1, Run::Word);
            let w = cs.subrange(pos, e);
            match keyword(w) {
                Some(t) => Lexed::Token(tok_at(t, line), e),
                None => match named_word(w) {
                    None => Lexed::Token(tok_at(Tok::Ident(w), line), e),
                    Some(k) => {
                        let p = e + 1;
                        if p >= cs.len() {
                            Lexed::Fail(line)
                        } else {
                            let e2 = run_end(
                                cs,
                                p + 1,
                                if k is Using {
                                    Run::Path
                                } else {
                                    Run::Word
                                },
                            );
                            let nm = cs.subrange(p, e2);
                            let t = match k {
                                Named::Spawn => Tok::Spawn(nm),
                                Named::Stack => Tok::Stack(nm),
                                Named::Macro => Tok::Macro(nm),
                                Named::Using => Tok::Import(Seq::empty(), nm),
                            };
                            Lexed::Token(tok_at(t, line), e2)
                        }
                    },
                },
            }
        }
    }
}

/// All the tokens from `pos` on, or the line of the first malformed one.
pub open spec fn lex_all(cs: Seq<char>, pos: int, line: u8) -> Result<Seq<TokAt>, u8>
    decreases cs.len() - pos,
{
    match lex_step(cs, pos, line) {
        Lexed::Done => Ok(Seq::empty()),
        Lexed::Skip(p, l) => if pos < p <= cs.len() {
            lex_all(cs, p, l)
        } else {
            Err(line)
        },
        Lexed::Token(t, p) => if pos < p <= cs.len() {
            match lex_all(cs, p, line) {
                Ok(ts) => Ok(seq![t] + ts),
                Err(l) => Err(l),
            }
        } else {
            Err(line)
        },
        Lexed::Fail(l) => Err(l),
    }
}

// ---------------------------------------------------------------------------
// The scanner
// ---------------------------------------------------------------------------

fn in_run_x(k: Run, c: char) -> (r: bool)
    ensures
        r == in_run(k, c),
{
    if c == '\n' {
        return false;
    }
    match k {
        Run::Word => is_alphanumeric(c) || c == '_',
        Run::Digits => is_numeric(c),
        Run::Path => !is_whitespace(c),
    }
}

fn run_end_x(cs: &Vec<char>, pos: usize, k: Run) -> (r: usize)
    requires
        pos <= cs@.len(),
    ensures
        r == run_end(cs@, pos as int, k),
        pos <= r <= cs@.len(),
{
    let mut i = pos;
    while i < cs.len() && in_run_x(k, cs[i])
        invariant
            pos <= i <= cs@.len(),
            run_end(cs@, pos as int, k) == run_end(cs@, i as int, k),
        decreases cs@.len() - i,
    {
        i = i + 1;
    }
    i
}

fn line_end_x(cs: &Vec<char>, pos: usize) -> (r: usize)
    requires
        pos <= cs@.len(),
    ensures
        r == line_end(cs@, pos as int),
        pos <= r <= cs@.len(),
{
    let mut i = pos;
    while i < cs.len() && cs[i] != '\n'
        invariant
            pos <= i <= cs@.len(),
            line_end(cs@, pos as int) == line_end(cs@, i as int),
        decreases cs@.len() - i,
    {
        i = i + 1;
    }
    i
}

fn decimal_x(cs: &Vec<char>, from: usize, to: usize) -> (r: Option<u8>)
    requires
        from <= to <= cs@.len(),
    ensures
        match decimal(cs@.subrange(from as int, to as int)) {
            Some(v) => r == Some(v as u8) && 0 <= v <= 255,
            None => r is None,
        },
{
    let mut v: u32 = 0;
    let mut ok = true;
    let mut i = from;
    assert(cs@.subrange(from as int, from as int) =~= Seq::<char>::empty());
    while i < to
        invariant
            from <= i <= to <= cs@.len(),
            ok ==> decimal(cs@.subrange(from as int, i as int)) == Some(v as int) && v <= 255,
            !ok ==> decimal(cs@.subrange(from as int, i as int)) is None,
        decreases to - i,
    {
        let ghost pre = cs@.subrange(from as int, i as int);
        assert(cs@.subrange(from as int, i + 1).subrange(0, i - from) =~= pre);
        assert(cs@.subrange(from as int, i + 1)[i - from] == cs@[i as int]);
        let c = cs[i];
        if ok {
            if '0' <= c && c <= '9' && v * 10 + (c as u32 - '0' as u32) <= 255 {
                v = v * 10 + (c as u32 - '0' as u32);
            } else {
                ok = false;
            }
        }
        i = i + 1;
    }
    if ok {
        Some(v as u8)
    } else {
        None
    }
}

pub open spec fn prepend_lit(a: Seq<char>, r: Option<(Seq<char>, int)>) -> Option<(Seq<char>, int)> {
    match r {
        Some((b, e)) => Some((a + b, e)),
        None => None,
    }
}

proof fn lemma_lit_body_bounds(cs: Seq<char>, i: int)
    ensures
        lit_body(cs, i) matches Some((_, e)) ==> i < e <= cs.len(),
    decreases cs.len() - i,
{
    if 0 <= i < cs.len() {
        if cs[i] == '\\' {
            if i + 1 < cs.len() {
                lemma_lit_body_bounds(cs, i + 2);
            }
        } else if cs[i] != '"' {
            lemma_lit_body_bounds(cs, i + 1);
        }
    }
}

fn lit_body_x(cs: &Vec<char>, pos: usize) -> (r: Option<(Vec<char>, usize)>)
    requires
        pos <= cs@.len(),
    ensures
        match lit_body(cs@, pos as int) {
            Some((b, e)) => r matches Some((v, x)) && v@ == b && x as int == e && pos < x <= cs@.len(),
            None => r is None,
        },
{
    let mut acc: Vec<char> = Vec::new();
    let mut i = pos;
    assert(acc@ + Seq::<char>::empty() =~= acc@);
    loop
        invariant
            pos <= i <= cs@.len(),
            lit_body(cs@, pos as int) == prepend_lit(acc@, lit_body(cs@, i as int)),
        decreases cs@.len() - i,
    {
        proof {
            lemma_lit_body_bounds(cs@, i as int);
            lemma_lit_body_bounds(cs@, pos as int);
        }
        if i >= cs.len() {
            return None;
        }
        let c = cs[i];
        if c == '"' {
            assert(acc@ + Seq::<char>::empty() =~= acc@);
            return Some((acc, i + 1));
        } else if c == '\\' {
            if i + 1 >= cs.len() {
                return None;
            }
            if cs[i + 1] == 'n' {
                let ghost old_acc = acc@;
                acc.push('\n');
                proof {
                    match lit_body(cs@, i + 2) {
                        Some((b, e)) => {
                            assert(old_acc + (seq!['\n'] + b) =~= acc@ + b);
                        },
                        None => {},
                    }
                }
            }
            i = i + 2;
        } else {
            let ghost old_acc = acc@;
            acc.push(c);
            proof {
                match lit_body(cs@, i + 1) {
                    Some((b, e)) => {
                        assert(old_acc + (seq![c] + b) =~= acc@ + b);
                    },
                    None => {},
                }
            }
            i = i + 1;
        }
    }
}

fn literal_name_x(s: &Vec<char>) -> (r: Vec<char>)
    ensures
        r@ == literal_name(s@),
{
    let mut acc: Vec<char> = Vec::new();
    let mut i: usize = 0;
    let mut words: usize = 0;
    let mut in_word = false;
    assert(acc@ + name_scan(s@, 0, 0, false) =~= name_scan(s@, 0, 0, false));
    while i < s.len()
        invariant
            i <= s@.len(),
            words <= 3,
            literal_name(s@) == acc@ + name_scan(s@, i as int, words as nat, in_word),
        decreases s@.len() - i,
    {
        let c = s[i];
        let ghost old_acc = acc@;
        if is_whitespace(c) {
            if in_word {
                acc.push('_');
                assert(old_acc + (seq!['_'] + name_scan(s@, i + 1, words as nat, false)) =~= acc@
                    + name_scan(s@, i + 1, words as nat, false));
            }
            in_word = false;
        } else {
            if !in_word && words >= 3 {
                assert(acc@ + Seq::<char>::empty() =~= acc@);
                return acc;
            }
            if !in_word {
                words = words + 1;
            }
            if is_alphabetic(c) {
                acc.push(c);
                assert(old_acc + (seq![c] + name_scan(s@, i + 1, words as nat, true)) =~= acc@
                    + name_scan(s@, i + 1, words as nat, true));
            } else {
                assert(old_acc + (Seq::<char>::empty() + name_scan(s@, i + 1, words as nat, true))
                    =~= acc@ + name_scan(s@, i + 1, words as nat, true));
            }
            in_word = true;
        }
        i = i + 1;
    }
    if in_word {
        acc.push('_');
    } else {
        assert(acc@ + Seq::<char>::empty() =~= acc@);
    }
    acc
}

/// The token that an opcode stands for.
pub open spec fn code_tok(o: OpCodes) -> Tok {
    op_view(Operation { OpCode: o, line_num: 0 }).tok
}

fn keyword_x(w: &String) -> (r: Option<OpCodes>)
    ensures
        match keyword(w@) {
            Some(t) => r matches Some(o) && code_tok(o) == t,
            None => r is None,
        },
{
    if *w == "dup".to_owned() {
        Some(OpCodes::DUP)
    } else if *w == "swap".to_owned() {
        Some(OpCodes::SWAP)
    } else if *w == "pop".to_owned() {
        Some(OpCodes::POP)
    } else if *w == "if".to_owned() {
        Some(OpCodes::IF)
    } else if *w == "else".to_owned() {
        Some(OpCodes::ELSE)
    } else if *w == "while".to_owned() {
        Some(OpCodes::WHILE)
    } else if *w == "end".to_owned() {
        Some(OpCodes::END)
    } else if *w == "do".to_owned() {
        Some(OpCodes::DO)
    } else if *w == "+".to_owned() {
        Some(OpCodes::ADD)
    } else if *w == "-".to_owned() {
        Some(OpCodes::SUB)
    } else if *w == "print".to_owned() {
        Some(OpCodes::PRINT)
    } else if *w == "print_ascii".to_owned() {
        Some(OpCodes::PRINTASCII)
    } else if *w == "=".to_owned() {
        Some(OpCodes::EQ)
    } else if *w == "<".to_owned() {
        Some(OpCodes::LT)
    } else if *w == ">".to_owned() {
        Some(OpCodes::GT)
    } else if *w == "*".to_owned() {
        Some(OpCodes::MULT)
    } else if *w == "def".to_owned() {
        Some(OpCodes::DEFINE)
    } else if *w == "switch".to_owned() {
        Some(OpCodes::SWITCH)
    } else if *w == "close".to_owned() {
        Some(OpCodes::CLOSE)
    } else if *w == "this".to_owned() {
        Some(OpCodes::THIS)
    } else if *w == "stacks".to_owned() {
        Some(OpCodes::STACKS)
    } else if *w == "stack_size".to_owned() {
        Some(OpCodes::STACKSIZE)
    } else if *w == "stack_rev".to_owned() {
        Some(OpCodes::STACKREV)
    } else if *w == "procedure".to_owned() {
        Some(OpCodes::PROCEDURE)
    } else if *w == "in".to_owned() {
        Some(OpCodes::IN)
    } else if *w == "exit".to_owned() {
        Some(OpCodes::EXIT)
    } else {
        None
    }
}

fn named_x(w: &String) -> (r: Option<Named>)
    ensures
        r == named_word(w@),
{
    if *w == "spawn".to_owned() {
        Some(Named::Spawn)
    } else if *w == "stack".to_owned() {
        Some(Named::Stack)
    } else if *w == "macro".to_owned() {
        Some(Named::Macro)
    } else if *w == "using".to_owned() {
        Some(Named::Using)
    } else {
        None
    }
}

fn literal_ops(content: &Vec<char>, line: u8) -> (r: Vec<Operation>)
    ensures
        ops_view(r@) == literal_tokens(content@, literal_name(content@), line),
{
    let ghost want = literal_tokens(content@, literal_name(content@), line);
    let name = literal_name_x(content);
    let nm = string_of(&name, 0, name.len());
    assert(name@.subrange(0, name@.len() as int) =~= name@);
    let mut r: Vec<Operation> = Vec::new();
    r.push(Operation::new(OpCodes::SPAWN(nm.clone()), line));
    r.push(Operation::new(OpCodes::DUP, line));
    r.push(Operation::new(OpCodes::SWITCH, line));
    let mut k: usize = 0;
    while k < content.len()
        invariant
            k <= content@.len(),
            want == literal_tokens(content@, literal_name(content@), line),
            nm@ == literal_name(content@),
            r@.len() == 3 + k,
            forall|j: int| 0 <= j < r@.len() ==> #[trigger] op_view(r@[j]) == want[j],
        decreases content@.len() - k,
    {
        let c = content[k];
        r.push(Operation::new(OpCodes::PUSH((c as u32 % 256) as u8), line));
        k = k + 1;
    }
    r.push(Operation::new(OpCodes::STACK("main".to_owned()), line));
    r.push(Operation::new(OpCodes::SWITCH, line));
    r.push(Operation::new(OpCodes::STACK(nm), line));
    proof {
        crate::globals::lemma_ops_view(r@);
        assert(ops_view(r@) =~= want);
    }
    r
}

/// One step of the scanner, as exec values.
pub enum LexedX {
    Done,
    Skip(usize, u8),
    Token(Operation, usize),
    Fail(u8),
}

pub open spec fn lexed_matches(r: LexedX, s: Lexed) -> bool {
    match (r, s) {
        (LexedX::Done, Lexed::Done) => true,
        (LexedX::Skip(p, l), Lexed::Skip(q, m)) => p as int == q && l == m,
        (LexedX::Token(o, p), Lexed::Token(t, q)) => op_view(o) == t && p as int == q,
        (LexedX::Fail(l), Lexed::Fail(m)) => l == m,
        _ => false,
    }
}

fn lex_step_x(cs: &Vec<char>, pos: usize, line: u8) -> (r: LexedX)
    requires
        pos <= cs@.len(),
    ensures
        lexed_matches(r, lex_step(cs@, pos as int, line)),
        r matches LexedX::Skip(p, _) ==> pos < p <= cs@.len(),
        r matches LexedX::Token(_, p) ==> pos < p <= cs@.len(),
{
    if pos >= cs.len() {
        return LexedX::Done;
    }
    let c = cs[pos];
    if c == '\n' {
        return LexedX::Skip(pos + 1, if line == 255 { 255 } else { line + 1 });
    }
    if is_whitespace(c) {
        return LexedX::Skip(pos + 1, line);
    }
    if is_numeric(c) {
        let e = run_end_x(cs, pos + 1, Run::Digits);
        return match decimal_x(cs, pos, e) {
            Some(v) => LexedX::Token(Operation::new(OpCodes::PUSH(v), line), e),
            None => LexedX::Fail(line),
        };
    }
    if c == '/' {
        if pos + 1 < cs.len() && cs[pos + 1] == '/' {
            return LexedX::Skip(line_end_x(cs, pos + 2), line);
        }
        return LexedX::Token(Operation::new(OpCodes::DIV, line), pos + 1);
    }
    if c == '@' {
        if pos + 1 >= cs.len() {
            return LexedX::Fail(line);
        }
        let e = run_end_x(cs, pos + 2, Run::Word);
        let name = string_of(cs, pos + 1, e);
        return LexedX::Token(Operation::new(OpCodes::VARDECLARE(name), line), e);
    }
    if c == '"' {
        return match lit_body_x(cs, pos + 1) {
            None => LexedX::Fail(line),
            Some((content, e)) => {
                let body = literal_ops(&content, line);
                LexedX::Token(Operation::new(OpCodes::STRING(body), line), e)
            },
        };
    }
    let e = run_end_x(cs, pos + 1, Run::Word);
    let w = string_of(cs, pos, e);
    match keyword_x(&w) {
        Some(o) => LexedX::Token(Operation::new(o, line), e),
        None => match named_x(&w) {
            None => LexedX::Token(Operation::new(OpCodes::IDENTIFIER(w), line), e),
            Some(k) => {
                if e >= cs.len() || e + 1 >= cs.len() {
                    return LexedX::Fail(line);
                }
                let p = e + 1;
                let kind = match k {
                    Named::Using => Run::Path,
                    _ => Run::Word,
                };
                let e2 = run_end_x(cs, p + 1, kind);
                let nm = string_of(cs, p, e2);
                let o = match k {
                    Named::Spawn => OpCodes::SPAWN(nm),
                    Named::Stack => OpCodes::STACK(nm),
                    Named::Macro => OpCodes::MACRO(nm),
                    Named::Using => {
                        let none: Vec<Operation> = Vec::new();
                        assert(ops_view(none@) =~= Seq::<TokAt>::empty());
                        OpCodes::IMPORT(none, nm)
                    },
                };
                LexedX::Token(Operation::new(o, line), e2)
            },
        },
    }
}

pub open spec fn prepend_toks(a: Seq<TokAt>, r: Result<Seq<TokAt>, u8>) -> Result<Seq<TokAt>, u8> {
    match r {
        Ok(ts) => Ok(a + ts),
        Err(l) => Err(l),
    }
}

/// Source text and the name of its file, ready to be scanned.
pub struct Lexer {
    raw_data: Vec<char>,
    file: String,
}

impl Lexer {
    pub closed spec fn text(&self) -> Seq<char> {
        self.raw_data@
    }

    pub closed spec fn file_name(&self) -> Seq<char> {
        self.file@
    }

    pub fn from_text(text: &str, file: String) -> (r: Self)
        ensures
            r.text() == text@,
            r.file_name() == file@,
    {
        Lexer { raw_data: chars_of(text), file }
    }

    /// All the tokens of the text, lines counted from 1; or an invalid-token
    /// fault at the line of the first malformed token.
    pub fn tokens(&self) -> (r: Result<Vec<Operation>, Fault>)
        ensures
            match lex_all(self.text(), 0, 1) {
                Ok(ts) => r matches Ok(v) && ops_view(v@) == ts,
                Err(l) => r matches Err(f) && f@ == fault(ErrorKind::InvalidToken, l, self.file_name()),
            },
    {
        let cs = &self.raw_data;
        let mut acc: Vec<Operation> = Vec::new();
        let mut pos: usize = 0;
        let mut line: u8 = 1;
        assert(ops_view(acc@) =~= Seq::<TokAt>::empty());
        assert(prepend_toks(Seq::empty(), lex_all(cs@, 0, 1)) == lex_all(cs@, 0, 1)) by {
            match lex_all(cs@, 0, 1) {
                Ok(ts) => {
                    assert(Seq::<TokAt>::empty() + ts =~= ts);
                },
                Err(_) => {},
            }
        }
        loop
            invariant
                pos <= cs@.len(),
                cs@ == self.text(),
                lex_all(cs@, 0, 1) == prepend_toks(ops_view(acc@), lex_all(cs@, pos as int, line)),
            decreases cs@.len() - pos,
        {
            match lex_step_x(cs, pos, line) {
                LexedX::Done => {
                    assert(ops_view(acc@) + Seq::<TokAt>::empty() =~= ops_view(acc@));
                    return Ok(acc);
                },
                LexedX::Skip(p, l) => {
                    pos = p;
                    line = l;
                },
                LexedX::Token(o, p) => {
                    proof {
                        lemma_ops_view_push(acc@, o);
                        match lex_all(cs@, p as int, line) {
                            Ok(ts) => {
                                assert(ops_view(acc@) + (seq![op_view(o)] + ts) =~= ops_view(acc@).push(
                                    op_view(o),
                                ) + ts);
                            },
                            Err(_) => {},
                        }
                    }
                    acc.push(o);
                    pos = p;
                },
                LexedX::Fail(l) => {
                    return Err(Fault { kind: ErrorKind::InvalidToken, line_num: l, file_name: self.file.clone() });
                },
            }
        }
    }
}

} // verus!
