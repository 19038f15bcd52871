use vstd::prelude::*;
use crate::error::Error;
use crate::lexer::Node;
use crate::text::decimal;

verus! {

/// The state of a run: the stack (top at the end), the variables in order of
/// first binding, the macros in order of definition, and the text printed.
pub struct Machine {
    pub stack: Seq<isize>,
    pub vars: Seq<(Seq<char>, isize)>,
    pub macros: Seq<(Seq<char>, isize, Node)>,
    pub out: Seq<char>,
}

/// What a run leaves: the state, and `Err` if it stopped on an error.
pub type Outcome = (Machine, Result<(), Error>);

pub open spec fn empty_machine() -> Machine {
    Machine { stack: Seq::empty(), vars: Seq::empty(), macros: Seq::empty(), out: Seq::empty() }
}

/// The first index from `i` on where `names` holds `name`, or -1.
pub open spec fn first_index(names: Seq<Seq<char>>, name: Seq<char>, i: int) -> int
    decreases names.len() - i,
{
    if i < 0 || i >= names.len() {
        -1
    } else if names[i] == name {
        i
    } else {
        first_index(names, name, i + 1)
    }
}

pub open spec fn var_names(vars: Seq<(Seq<char>, isize)>) -> Seq<Seq<char>> {
    vars.map_values(|p: (Seq<char>, isize)| p.0)
}

pub open spec fn macro_names(macros: Seq<(Seq<char>, isize, Node)>) -> Seq<Seq<char>> {
    macros.map_values(|d: (Seq<char>, isize, Node)| d.0)
}

/// Where `name` is bound as a variable, or -1.
pub open spec fn var_index(m: Machine, name: Seq<char>) -> int {
    first_index(var_names(m.vars), name, 0)
}

/// Where `name` is defined as a macro, or -1.
pub open spec fn macro_index(m: Machine, name: Seq<char>) -> int {
    first_index(macro_names(m.macros), name, 0)
}

pub open spec fn is_macro(m: Machine, name: Seq<char>) -> bool {
    macro_index(m, name) >= 0
}

pub open spec fn is_var(m: Machine, name: Seq<char>) -> bool {
    var_index(m, name) >= 0
}

/// The value of a bound variable.
pub open spec fn var_value(m: Machine, name: Seq<char>) -> isize {
    m.vars[var_index(m, name)].1
}

/// Binds `name` to `v`: in place if it is bound, else as a new variable.
pub open spec fn assign(m: Machine, name: Seq<char>, v: isize) -> Machine {
    let k = var_index(m, name);
    if k >= 0 {
        Machine { vars: m.vars.update(k, (name, v)), ..m }
    } else {
        Machine { vars: m.vars.push((name, v)), ..m }
    }
}

pub open spec fn push(m: Machine, v: isize) -> Machine {
    Machine { stack: m.stack.push(v), ..m }
}

pub open spec fn pop(m: Machine) -> Machine {
    Machine { stack: m.stack.drop_last(), ..m }
}

pub open spec fn print(m: Machine, s: Seq<char>) -> Machine {
    Machine { out: m.out + s, ..m }
}

pub open spec fn fits(v: int) -> bool {
    isize::MIN <= v <= isize::MAX
}

pub open spec fn abs(v: int) -> int {
    if v < 0 {
        -v
    } else {
        v
    }
}

/// Division that rounds toward zero.
pub open spec fn div_trunc(a: int, b: int) -> int {
    if (a < 0) == (b < 0) {
        abs(a) / abs(b)
    } else {
        -(abs(a) / abs(b))
    }
}

/// The value an arithmetic or comparison node makes of `a` (pushed first)
/// and `b` (the top), or the fault it raises.
pub open spec fn binary(n: Node, a: isize, b: isize) -> Result<isize, Error> {
    let r: int = match n {
        Node::Add => a + b,
        Node::Sub => a - b,
        Node::Mul => a * b,
        Node::Div => if b == 0 { 0 } else { div_trunc(a as int, b as int) },
        Node::Eq => if a == b { 1 } else { 0 },
        Node::Ne => if a != b { 1 } else { 0 },
        Node::Lt => if a < b { 1 } else { 0 },
        _ => if a > b { 1 } else { 0 },
    };
    if n is Div && b == 0 {
        Err(Error::DivideByZero)
    } else if !fits(r) {
        Err(Error::Overflow)
    } else {
        Ok(r as isize)
    }
}

pub open spec fn is_binary(n: Node) -> bool {
    n is Add || n is Sub || n is Mul || n is Div || n is Eq || n is Ne || n is Lt || n is Gt
}

/// An arithmetic or comparison node: a no-op on fewer than two values,
/// else the two top values replaced by the result.
pub open spec fn exec_binary(n: Node, m: Machine) -> Outcome {
    let len = m.stack.len();
    if len < 2 {
        (m, Ok(()))
    } else {
        match binary(n, m.stack[len - 2], m.stack[len - 1]) {
            Ok(v) => (push(pop(pop(m)), v), Ok(())),
            Err(x) => (m, Err(x)),
        }
    }
}

pub open spec fn exec_not(m: Machine) -> Outcome {
    if m.stack.len() < 1 {
        (m, Ok(()))
    } else {
        (push(pop(m), if m.stack.last() == 0 { 1 } else { 0 }), Ok(()))
    }
}

/// `@name`: pops the top into a variable.
pub open spec fn exec_bind(name: Seq<char>, m: Machine) -> Outcome {
    if is_macro(m, name) {
        (m, Err(Error::IdIsMacro))
    } else if m.stack.len() == 0 {
        (m, Err(Error::StackUnderflow))
    } else {
        (assign(pop(m), name, m.stack.last()), Ok(()))
    }
}

/// Binds `names[i - 1]`, ..., `names[0]` to values popped in turn.
pub open spec fn bind_names(names: Seq<Seq<char>>, i: int, m: Machine) -> Outcome
    decreases i,
{
    if i <= 0 {
        (m, Ok(()))
    } else if is_macro(m, names[i - 1]) {
        (m, Err(Error::IdIsMacro))
    } else {
        bind_names(names, i - 1, assign(pop(m), names[i - 1], m.stack.last()))
    }
}

/// `{a b ...}`: the last name takes the top, the one before it the next.
pub open spec fn exec_pattern(names: Seq<Seq<char>>, m: Machine) -> Outcome {
    if m.stack.len() < names.len() {
        (m, Err(Error::StackUnderflow))
    } else {
        bind_names(names, names.len() as int, m)
    }
}

/// The stack as `[a, b, c]` and a line break.
pub open spec fn stack_text(s: Seq<isize>) -> Seq<char> {
    seq!['['] + values_text(s) + seq![']', '\n']
}

pub open spec fn values_text(s: Seq<isize>) -> Seq<char>
    decreases s.len(),
{
    if s.len() == 0 {
        Seq::empty()
    } else if s.len() == 1 {
        decimal(s[0] as int)
    } else {
        values_text(s.drop_last()) + seq![',', ' '] + decimal(s.last() as int)
    }
}

pub open spec fn exec_print(m: Machine) -> Outcome {
    if m.stack.len() == 0 {
        (print(m, seq![' ']), Ok(()))
    } else {
        (print(pop(m), decimal(m.stack.last() as int)), Ok(()))
    }
}

/// `STACK` prints the stack; `LENGTH` pushes its length.
pub open spec fn exec_special(name: Seq<char>, m: Machine) -> Outcome {
    if name == "STACK"@ {
        (print(m, stack_text(m.stack)), Ok(()))
    } else if name == "LENGTH"@ {
        if m.stack.len() <= isize::MAX {
            (push(m, m.stack.len() as isize), Ok(()))
        } else {
            (m, Err(Error::Overflow))
        }
    } else {
        (m, Ok(()))
    }
}

/// The value of a macro's arity node, and the state after it: only `STACK`
/// changes anything, by printing.
pub open spec fn evaluate(n: Node, m: Machine) -> (Machine, Result<isize, Error>)
    decreases n,
{
    match n {
        Node::Ref(name) => if is_var(m, name) {
            (m, Ok(var_value(m, name)))
        } else {
            (m, Err(Error::IdNotFound))
        },
        Node::Special(name) => if name == "STACK"@ {
            (print(m, stack_text(m.stack)), Ok(0))
        } else if name == "LENGTH"@ {
            if m.stack.len() <= isize::MAX {
                (m, Ok(m.stack.len() as isize))
            } else {
                (m, Err(Error::Overflow))
            }
        } else {
            (m, Ok(0))
        },
        Node::Int(v) => (m, Ok(v as isize)),
        Node::Size(c) => evaluate(*c, m),
        _ => (m, Ok(0)),
    }
}

/// `macro [size] name body`: registers the macro with the value of `size`
/// as the number of stack values it needs.
pub open spec fn exec_define(name: Seq<char>, size: Node, body: Node, m: Machine) -> Outcome {
    if is_macro(m, name) {
        (m, Err(Error::MacroRedefined))
    } else {
        match evaluate(size, m) {
            (m1, Ok(v)) => (Machine { macros: m1.macros.push((name, v, body)), ..m1 }, Ok(())),
            (m1, Err(x)) => (m1, Err(x)),
        }
    }
}

pub open spec fn unknown_text() -> Seq<char> {
    "unknown token\n"@
}

/// Runs node `n` with `f` units of fuel: each level of nesting, macro call
/// and loop iteration takes one.
pub open spec fn exec_node(f: nat, n: Node, m: Machine) -> Outcome
    decreases f, 0nat, 0nat,
{
    if f == 0 {
        (m, Err(Error::OutOfFuel))
    } else {
        let g = (f - 1) as nat;
        match n {
            Node::Nothing => (m, Ok(())),
            Node::Int(v) => (push(m, v as isize), Ok(())),
            Node::Group(cs) => exec_seq(g, cs, 0, m),
            Node::Not => exec_not(m),
            Node::Bind(name) => exec_bind(name, m),
            Node::Pattern(names) => exec_pattern(names, m),
            Node::Ref(name) => exec_ref(g, name, m),
            Node::Macro(name, size, body) => exec_define(name, *size, *body, m),
            Node::Repeat(b) => exec_repeat(g, *b, m),
            Node::While(b) => exec_while(g, *b, m),
            Node::Cond(t, e) => exec_cond(g, *t, *e, m),
            Node::Print => exec_print(m),
            Node::Special(name) => exec_special(name, m),
            Node::Size(_) => (print(m, unknown_text()), Ok(())),
            Node::Kind => (print(m, unknown_text()), Ok(())),
            _ => exec_binary(n, m),
        }
    }
}

/// A name: a variable pushes its value, a macro is called.
pub open spec fn exec_ref(f: nat, name: Seq<char>, m: Machine) -> Outcome
    decreases f, 2nat, 0nat,
{
    if is_var(m, name) {
        (push(m, var_value(m, name)), Ok(()))
    } else if is_macro(m, name) {
        call_macro(f, macro_index(m, name), m)
    } else {
        (m, Err(Error::IdNotFound))
    }
}

/// `repeat b`: pops a count and runs `b` that many times (none if it is not
/// positive); a no-op on an empty stack.
pub open spec fn exec_repeat(f: nat, b: Node, m: Machine) -> Outcome
    decreases f, 2nat, 0nat,
{
    if m.stack.len() < 1 {
        (m, Ok(()))
    } else {
        let k = m.stack.last();
        repeat_n(f, if k <= 0 { 0 } else { k as nat }, b, pop(m))
    }
}

/// `while b`: a no-op on an empty stack, else `while_loop`.
pub open spec fn exec_while(f: nat, b: Node, m: Machine) -> Outcome
    decreases f, 2nat, 0nat,
{
    if m.stack.len() < 1 {
        (m, Ok(()))
    } else {
        while_loop(f, b, m)
    }
}

/// `if t else e`: a nonzero top is popped and `t` runs; a zero top is popped
/// and `e` runs if there is an `e`, else it stays.
pub open spec fn exec_cond(f: nat, t: Node, e: Node, m: Machine) -> Outcome
    decreases f, 1nat, 0nat,
{
    if m.stack.len() < 1 {
        (m, Ok(()))
    } else if m.stack.last() != 0 {
        exec_node(f, t, pop(m))
    } else if !(e is Nothing) {
        exec_node(f, e, pop(m))
    } else {
        (m, Ok(()))
    }
}

/// Runs `ns[i]`, `ns[i + 1]`, ... in turn, stopping at the first error.
pub open spec fn exec_seq(f: nat, ns: Seq<Node>, i: int, m: Machine) -> Outcome
    decreases f, 1nat, ns.len() - i,
{
    if i < 0 || i >= ns.len() {
        (m, Ok(()))
    } else {
        match exec_node(f, ns[i], m) {
            (m1, Ok(())) => exec_seq(f, ns, i + 1, m1),
            (m1, Err(x)) => (m1, Err(x)),
        }
    }
}

/// Runs `b` `k` times, stopping at the first error.
pub open spec fn repeat_n(f: nat, k: nat, b: Node, m: Machine) -> Outcome
    decreases f, 1nat, k,
{
    if k == 0 {
        (m, Ok(()))
    } else {
        match exec_node(f, b, m) {
            (m1, Ok(())) => repeat_n(f, (k - 1) as nat, b, m1),
            (m1, Err(x)) => (m1, Err(x)),
        }
    }
}

/// Runs `b`, then again while it leaves a nonzero top.
pub open spec fn while_loop(f: nat, b: Node, m: Machine) -> Outcome
    decreases f, 1nat, 0nat,
{
    if f == 0 {
        (m, Err(Error::OutOfFuel))
    } else {
        match exec_node(f, b, m) {
            (m1, Ok(())) => if m1.stack.len() == 0 {
                (m1, Err(Error::EmptyLoop))
            } else if m1.stack.last() == 0 {
                (m1, Ok(()))
            } else {
                while_loop((f - 1) as nat, b, m1)
            },
            (m1, Err(x)) => (m1, Err(x)),
        }
    }
}

/// Calls the macro at index `k`: its body runs on the same stack with no
/// variables, and the caller's variables come back afterwards.
pub open spec fn call_macro(f: nat, k: int, m: Machine) -> Outcome
    decreases f, 1nat, 0nat,
{
    let arity = m.macros[k].1;
    let body = m.macros[k].2;
    if m.stack.len() < arity {
        (m, Err(Error::MacroArity(arity)))
    } else {
        match exec_node(f, body, Machine { vars: Seq::empty(), ..m }) {
            (m1, Ok(())) => (Machine { vars: m.vars, ..m1 }, Ok(())),
            (m1, Err(x)) => (m1, Err(x)),
        }
    }
}

} // verus!
