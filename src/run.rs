use vstd::prelude::*;
use crate::error::Error;
use crate::lexer::{lemma_body_view, lex, names_view, parse_all, tokens_view, Node, Token, TYPES};
use crate::machine::{
    assign, binary, bind_names, call_macro, empty_machine, evaluate, exec_bind, exec_binary,
    exec_cond, exec_define, exec_node, exec_not, exec_pattern, exec_print, exec_ref, exec_repeat,
    exec_seq, exec_special, exec_while, first_index, is_binary, macro_index, macro_names, repeat_n,
    stack_text, values_text, var_index, var_names, while_loop, Machine, Outcome,
};
use crate::stack::Stack;
use crate::text::{decimal_chars, push_text, same_text, string_of};

verus! {

/// The fuel that `interpret` and `run` give a program: no nesting depth or
/// loop that a real run reaches.
pub const FUEL: u64 = u64::MAX;

pub open spec fn vars_view(v: Seq<(String, isize)>) -> Seq<(Seq<char>, isize)> {
    v.map_values(|p: (String, isize)| (p.0@, p.1))
}

pub open spec fn macros_view(v: Seq<(String, isize, Token)>) -> Seq<(Seq<char>, isize, Node)> {
    v.map_values(|d: (String, isize, Token)| (d.0@, d.1, d.2@))
}

/// The stack machine: a stack, variables, macros and the text printed.
pub struct Interpreter {
    pub stack: Stack<isize>,
    pub vars: Vec<(String, isize)>,
    pub macros: Vec<(String, isize, Token)>,
    pub out: Vec<char>,
}

impl View for Interpreter {
    type V = Machine;

    open spec fn view(&self) -> Machine {
        Machine {
            stack: self.stack@,
            vars: vars_view(self.vars@),
            macros: macros_view(self.macros@),
            out: self.out@,
        }
    }
}

impl Interpreter {
    pub fn new() -> (r: Self)
        ensures
            r@ == empty_machine(),
    {
        let r = Self { stack: Stack::new(), vars: Vec::new(), macros: Vec::new(), out: Vec::new() };
        assert(r@.vars =~= Seq::<(Seq<char>, isize)>::empty());
        assert(r@.macros =~= Seq::<(Seq<char>, isize, Node)>::empty());
        r
    }

    /// Where `name` is bound as a variable.
    fn find_var(&self, name: &String) -> (r: Option<usize>)
        ensures
            match r {
                Some(k) => k == var_index(self@, name@) && k < self.vars@.len(),
                None => var_index(self@, name@) == -1,
            },
    {
        let ghost names = var_names(self@.vars);
        let mut i: usize = 0;
        while i < self.vars.len()
            invariant
                i <= self.vars@.len(),
                names == var_names(self@.vars),
                names.len() == self.vars@.len(),
                first_index(names, name@, 0) == first_index(names, name@, i as int),
            decreases self.vars@.len() - i,
        {
            assert(names[i as int] == self.vars@[i as int].0@);
            if self.vars[i].0 == *name {
                return Some(i);
            }
            i = i + 1;
        }
        None
    }

    /// Where `name` is defined as a macro.
    fn find_macro(&self, name: &String) -> (r: Option<usize>)
        ensures
            match r {
                Some(k) => k == macro_index(self@, name@) && k < self.macros@.len(),
                None => macro_index(self@, name@) == -1,
            },
    {
        let ghost names = macro_names(self@.macros);
        let mut i: usize = 0;
        while i < self.macros.len()
            invariant
                i <= self.macros@.len(),
                names == macro_names(self@.macros),
                names.len() == self.macros@.len(),
                first_index(names, name@, 0) == first_index(names, name@, i as int),
            decreases self.macros@.len() - i,
        {
            assert(names[i as int] == self.macros@[i as int].0@);
            if self.macros[i].0 == *name {
                return Some(i);
            }
            i = i + 1;
        }
        None
    }

    fn assign_var(&mut self, name: &String, v: isize)
        ensures
            final(self)@ == assign(old(self)@, name@, v),
    {
        match self.find_var(name) {
            Some(k) => {
                self.vars.set(k, (name.clone(), v));
                assert(vars_view(self.vars@) =~= vars_view(old(self).vars@).update(
                    k as int,
                    (name@, v),
                ));
            },
            None => {
                self.vars.push((name.clone(), v));
                assert(vars_view(self.vars@) =~= vars_view(old(self).vars@).push((name@, v)));
            },
        }
    }

    fn emit(&mut self, s: &str)
        ensures
            final(self)@ == (Machine { out: old(self)@.out + s@, ..old(self)@ }),
    {
        push_text(&mut self.out, s);
    }

    /// Appends the text of the stack to the output.
    fn show_stack(&mut self)
        ensures
            final(self)@ == (Machine { out: old(self)@.out + stack_text(old(self)@.stack), ..old(self)@ }),
    {
        let ghost out0 = self.out@;
        let ghost s = self.stack@;
        self.out.push('[');
        let n = self.stack.len();
        let mut i: usize = 0;
        while i < n
            invariant
                n == s.len(),
                s == self.stack@,
                s == old(self)@.stack,
                self.vars == old(self).vars,
                self.macros == old(self).macros,
                out0 == old(self)@.out,
                i <= n,
                self.out@ == out0 + seq!['['] + values_text(s.take(i as int)),
            decreases n - i,
        {
            let v = self.stack.to_vec()[i];
            let ghost before = self.out@;
            if i > 0 {
                self.out.push(',');
                self.out.push(' ');
            }
            let mut d = decimal_chars(v);
            self.out.append(&mut d);
            assert(s.take(i + 1).drop_last() =~= s.take(i as int));
            assert(s.take(i + 1).last() == v);
            if i == 0 {
                assert(s.take(1) =~= seq![v]);
                assert(self.out@ =~= out0 + seq!['['] + values_text(s.take(i + 1)));
            } else {
                assert(self.out@ =~= out0 + seq!['['] + values_text(s.take(i + 1)));
            }
            i = i + 1;
        }
        self.out.push(']');
        self.out.push('\n');
        assert(s.take(n as int) =~= s);
        assert(self.out@ =~= out0 + stack_text(s));
    }

    /// The value of a macro's arity node.
    pub fn get(&mut self, token: &Token) -> (r: Result<isize, Error>)
        ensures
            evaluate(token@, old(self)@) == (final(self)@, r),
        decreases token,
    {
        match &token.token {
            TYPES::ID(id) => match self.find_var(id) {
                Some(k) => Ok(self.vars[k].1),
                None => Err(Error::IdNotFound),
            },
            TYPES::VAR(var) => {
                if same_text(var.as_str(), "STACK") {
                    self.show_stack();
                    Ok(0)
                } else if same_text(var.as_str(), "LENGTH") {
                    let n = self.stack.len();
                    if n <= isize::MAX as usize {
                        Ok(n as isize)
                    } else {
                        Err(Error::Overflow)
                    }
                } else {
                    Ok(0)
                }
            },
            TYPES::INT(n) => Ok(*n),
            TYPES::SIZE(inner) => self.get(inner),
            _ => Ok(0),
        }
    }
}

/// The result of an arithmetic or comparison token on `a` (pushed first)
/// and `b` (the top).
fn binary_op(op: &Token, a: isize, b: isize) -> (r: Result<isize, Error>)
    requires
        is_binary(op@),
    ensures
        r == binary(op@, a, b),
{
    let x = a as i128;
    let y = b as i128;
    let v: i128 = match op.token {
        TYPES::ADD => x + y,
        TYPES::SUB => x - y,
        TYPES::MUL => {
            assert(-0x4000_0000_0000_0000_0000_0000_0000_0000 <= x * y
                <= 0x4000_0000_0000_0000_0000_0000_0000_0000) by (nonlinear_arith)
                requires
                    -0x8000_0000_0000_0000 <= x <= 0x7fff_ffff_ffff_ffff,
                    -0x8000_0000_0000_0000 <= y <= 0x7fff_ffff_ffff_ffff,
            ;
            x * y
        },
        TYPES::DIV => {
            if b == 0 {
                return Err(Error::DivideByZero);
            }
            let ux: u128 = if x < 0 { (-x) as u128 } else { x as u128 };
            let uy: u128 = if y < 0 { (-y) as u128 } else { y as u128 };
            let q = ux / uy;
            assert(q <= ux) by (nonlinear_arith)
                requires
                    uy >= 1,
                    q == ux / uy,
            ;
            if (x < 0) == (y < 0) {
                q as i128
            } else {
                -(q as i128)
            }
        },
        TYPES::EQ => if a == b { 1 } else { 0 },
        TYPES::NE => if a != b { 1 } else { 0 },
        TYPES::LT => if a < b { 1 } else { 0 },
        _ => if a > b { 1 } else { 0 },
    };
    if v < isize::MIN as i128 || v > isize::MAX as i128 {
        Err(Error::Overflow)
    } else {
        Ok(v as isize)
    }
}

impl Interpreter {
    /// Runs one token with `fuel`.
    pub fn exec(&mut self, t: &Token, fuel: u64) -> (r: Result<(), Error>)
        ensures
            exec_node(fuel as nat, t@, old(self)@) == (final(self)@, r),
        decreases fuel, 0nat, 0nat,
    {
        if fuel == 0 {
            return Err(Error::OutOfFuel);
        }
        let g = fuel - 1;
        match &t.token {
            TYPES::NONE => Ok(()),
            TYPES::INT(v) => {
                self.stack.push(*v);
                Ok(())
            },
            TYPES::BODY(v) => {
                proof {
                    lemma_body_view(*v, t.start, t.stop);
                }
                self.exec_all(v, g)
            },
            TYPES::NOT => self.not(),
            TYPES::SET(name) => self.bind(name),
            TYPES::MAP(names) => self.pattern(names),
            TYPES::ID(name) => self.reference(name, g),
            TYPES::MACRO(name, size, body) => self.define(name, size, body),
            TYPES::REPEAT(b) => self.repeat(b, g),
            TYPES::WHILE(b) => self.run_while(b, g),
            TYPES::IF(a, b) => self.cond(a, b, g),
            TYPES::PRINT => self.print(),
            TYPES::VAR(name) => self.special(name),
            TYPES::SIZE(_) => {
                self.emit("unknown token\n");
                Ok(())
            },
            TYPES::TYPE => {
                self.emit("unknown token\n");
                Ok(())
            },
            _ => self.binary(t),
        }
    }

    /// Runs the tokens in order with `fuel`, stopping at the first error.
    fn exec_all(&mut self, ts: &Vec<Token>, fuel: u64) -> (r: Result<(), Error>)
        ensures
            exec_seq(fuel as nat, tokens_view(ts@), 0, old(self)@) == (final(self)@, r),
        decreases fuel, 1nat, 0nat,
    {
        let ghost ns = tokens_view(ts@);
        let mut i: usize = 0;
        while i < ts.len()
            invariant
                i <= ts@.len(),
                ns == tokens_view(ts@),
                exec_seq(fuel as nat, ns, 0, old(self)@) == exec_seq(fuel as nat, ns, i as int, self@),
            decreases ts@.len() - i,
        {
            assert(ns[i as int] == ts@[i as int]@);
            match self.exec(&ts[i], fuel) {
                Ok(()) => {},
                Err(x) => return Err(x),
            }
            i = i + 1;
        }
        Ok(())
    }

    fn binary(&mut self, op: &Token) -> (r: Result<(), Error>)
        requires
            is_binary(op@),
        ensures
            exec_binary(op@, old(self)@) == (final(self)@, r),
    {
        let n = self.stack.len();
        if n < 2 {
            return Ok(());
        }
        let a = self.stack.to_vec()[n - 2];
        let b = self.stack.to_vec()[n - 1];
        match binary_op(op, a, b) {
            Ok(v) => {
                self.stack.pop();
                self.stack.pop();
                self.stack.push(v);
                Ok(())
            },
            Err(x) => Err(x),
        }
    }

    fn not(&mut self) -> (r: Result<(), Error>)
        ensures
            exec_not(old(self)@) == (final(self)@, r),
    {
        match self.stack.pop() {
            Some(a) => {
                self.stack.push(if a == 0 { 1 } else { 0 });
                Ok(())
            },
            None => Ok(()),
        }
    }

    fn bind(&mut self, name: &String) -> (r: Result<(), Error>)
        ensures
            exec_bind(name@, old(self)@) == (final(self)@, r),
    {
        if self.find_macro(name).is_some() {
            return Err(Error::IdIsMacro);
        }
        match self.stack.pop() {
            Some(v) => {
                self.assign_var(name, v);
                Ok(())
            },
            None => Err(Error::StackUnderflow),
        }
    }

    fn pattern(&mut self, names: &Vec<String>) -> (r: Result<(), Error>)
        ensures
            exec_pattern(names_view(names@), old(self)@) == (final(self)@, r),
    {
        let ghost ns = names_view(names@);
        if self.stack.len() < names.len() {
            return Err(Error::StackUnderflow);
        }
        let mut i: usize = names.len();
        loop
            invariant
                i <= names@.len(),
                ns == names_view(names@),
                i <= self.stack@.len(),
                exec_pattern(ns, old(self)@) == bind_names(ns, i as int, self@),
            decreases i,
        {
            if i == 0 {
                return Ok(());
            }
            let name = &names[i - 1];
            assert(ns[i - 1] == name@);
            if self.find_macro(name).is_some() {
                return Err(Error::IdIsMacro);
            }
            match self.stack.pop() {
                Some(v) => self.assign_var(name, v),
                None => {},
            }
            i = i - 1;
        }
    }

    fn reference(&mut self, name: &String, fuel: u64) -> (r: Result<(), Error>)
        ensures
            exec_ref(fuel as nat, name@, old(self)@) == (final(self)@, r),
        decreases fuel, 2nat, 0nat,
    {
        match self.find_var(name) {
            Some(k) => {
                let v = self.vars[k].1;
                self.stack.push(v);
                return Ok(());
            },
            None => {},
        }
        match self.find_macro(name) {
            Some(k) => self.call_macro(k, fuel),
            None => Err(Error::IdNotFound),
        }
    }

    fn call_macro(&mut self, k: usize, fuel: u64) -> (r: Result<(), Error>)
        requires
            k < old(self).macros@.len(),
        ensures
            call_macro(fuel as nat, k as int, old(self)@) == (final(self)@, r),
        decreases fuel, 1nat, 0nat,
    {
        let arity = self.macros[k].1;
        if arity > 0 && self.stack.len() < arity as usize {
            return Err(Error::MacroArity(arity));
        }
        let body = self.macros[k].2.copy();
        let mut saved: Vec<(String, isize)> = Vec::new();
        std::mem::swap(&mut saved, &mut self.vars);
        assert(vars_view(self.vars@) =~= Seq::<(Seq<char>, isize)>::empty());
        match self.exec(&body, fuel) {
            Ok(()) => {
                self.vars = saved;
                Ok(())
            },
            Err(x) => Err(x),
        }
    }

    fn define(&mut self, name: &String, size: &Token, body: &Token) -> (r: Result<(), Error>)
        ensures
            exec_define(name@, size@, body@, old(self)@) == (final(self)@, r),
    {
        if self.find_macro(name).is_some() {
            return Err(Error::MacroRedefined);
        }
        match self.get(size) {
            Ok(v) => {
                let ghost before = self.macros@;
                let d = (name.clone(), v, body.copy());
                self.macros.push(d);
                assert(macros_view(self.macros@) =~= macros_view(before).push((name@, v, body@)));
                Ok(())
            },
            Err(x) => Err(x),
        }
    }

    fn repeat(&mut self, b: &Token, fuel: u64) -> (r: Result<(), Error>)
        ensures
            exec_repeat(fuel as nat, b@, old(self)@) == (final(self)@, r),
        decreases fuel, 2nat, 0nat,
    {
        let k = match self.stack.pop() {
            Some(k) => k,
            None => return Ok(()),
        };
        let ghost total: nat = if k <= 0 { 0 } else { k as nat };
        let mut i: isize = 0;
        while i < k
            invariant
                0 <= i,
                total == if k <= 0 { 0 } else { k as nat },
                k <= 0 ==> i == 0,
                k > 0 ==> i <= k,
                exec_repeat(fuel as nat, b@, old(self)@) == repeat_n(
                    fuel as nat,
                    (total - i) as nat,
                    b@,
                    self@,
                ),
            decreases k - i,
        {
            match self.exec(b, fuel) {
                Ok(()) => {},
                Err(x) => return Err(x),
            }
            i = i + 1;
        }
        Ok(())
    }

    fn run_while(&mut self, b: &Token, fuel: u64) -> (r: Result<(), Error>)
        ensures
            exec_while(fuel as nat, b@, old(self)@) == (final(self)@, r),
        decreases fuel, 2nat, 0nat,
    {
        if self.stack.len() < 1 {
            return Ok(());
        }
        let mut f = fuel;
        loop
            invariant
                f <= fuel,
                exec_while(fuel as nat, b@, old(self)@) == while_loop(f as nat, b@, self@),
            decreases f,
        {
            if f == 0 {
                return Err(Error::OutOfFuel);
            }
            match self.exec(b, f) {
                Ok(()) => {},
                Err(x) => return Err(x),
            }
            match self.stack.peek() {
                None => return Err(Error::EmptyLoop),
                Some(v) => {
                    if *v == 0 {
                        return Ok(());
                    }
                },
            }
            f = f - 1;
        }
    }

    fn cond(&mut self, a: &Token, b: &Token, fuel: u64) -> (r: Result<(), Error>)
        ensures
            exec_cond(fuel as nat, a@, b@, old(self)@) == (final(self)@, r),
        decreases fuel, 1nat, 0nat,
    {
        let top = match self.stack.peek() {
            Some(v) => *v,
            None => return Ok(()),
        };
        if top != 0 {
            self.stack.pop();
            return self.exec(a, fuel);
        }
        match b.token {
            TYPES::NONE => Ok(()),
            _ => {
                self.stack.pop();
                self.exec(b, fuel)
            },
        }
    }

    fn print(&mut self) -> (r: Result<(), Error>)
        ensures
            exec_print(old(self)@) == (final(self)@, r),
    {
        match self.stack.pop() {
            Some(v) => {
                let mut d = decimal_chars(v);
                self.out.append(&mut d);
            },
            None => {
                self.out.push(' ');
                assert(self.out@ =~= old(self).out@ + seq![' ']);
            },
        }
        Ok(())
    }

    fn special(&mut self, name: &String) -> (r: Result<(), Error>)
        ensures
            exec_special(name@, old(self)@) == (final(self)@, r),
    {
        if same_text(name.as_str(), "STACK") {
            self.show_stack();
        } else if same_text(name.as_str(), "LENGTH") {
            let n = self.stack.len();
            if n <= isize::MAX as usize {
                self.stack.push(n as isize);
            } else {
                return Err(Error::Overflow);
            }
        }
        Ok(())
    }
}

impl Interpreter {
    /// Runs the tokens in order, stopping at the first error.
    pub fn interpret(&mut self, tokens: &Vec<Token>) -> (r: Result<(), Error>)
        ensures
            exec_seq(FUEL as nat, tokens_view(tokens@), 0, old(self)@) == (final(self)@, r),
    {
        self.exec_all(tokens, FUEL)
    }

    /// Parses a preamble's text and runs it on this machine, so that what it
    /// binds and defines is there for the program that follows.
    pub fn load_std(&mut self, text: String) -> (r: Result<(), Error>)
        ensures
            match parse_all(text@, 0) {
                Ok(ns) => exec_seq(FUEL as nat, ns, 0, old(self)@) == (final(self)@, r),
                Err(x) => r == Err::<(), Error>(x) && final(self)@ == old(self)@,
            },
    {
        let name = String::new();
        match lex(&name, text) {
            Ok(tokens) => self.interpret(&tokens),
            Err(x) => Err(x),
        }
    }
}

/// Runs the tokens on a fresh machine and returns the stack they leave.
pub fn run(tokens: Vec<Token>) -> (r: Result<Stack<isize>, Error>)
    ensures
        match exec_seq(FUEL as nat, tokens_view(tokens@), 0, empty_machine()) {
            (m, Ok(())) => r matches Ok(s) && s@ == m.stack,
            (_, Err(x)) => r == Err::<Stack<isize>, Error>(x),
        },
{
    let mut interpreter = Interpreter::new();
    match interpreter.interpret(&tokens) {
        Ok(()) => Ok(interpreter.stack),
        Err(x) => Err(x),
    }
}

pub open spec fn text_of(s: Option<String>) -> Option<Seq<char>> {
    match s {
        Some(t) => Some(t@),
        None => None,
    }
}

/// What a run gives from a fresh machine: the preamble's text, if there is
/// one, is parsed and run first, and a failure there ends the run; then the
/// program runs on the same machine, so it sees what the preamble bound and
/// defined.
pub open spec fn program_outcome(pre: Option<Seq<char>>, ns: Seq<Node>) -> Outcome {
    match pre {
        None => exec_seq(FUEL as nat, ns, 0, empty_machine()),
        Some(text) => match parse_all(text, 0) {
            Err(x) => (empty_machine(), Err(x)),
            Ok(ps) => match exec_seq(FUEL as nat, ps, 0, empty_machine()) {
                (m1, Ok(())) => exec_seq(FUEL as nat, ns, 0, m1),
                (m1, Err(x)) => (m1, Err(x)),
            },
        },
    }
}

/// Runs an optional preamble and then the tokens on a fresh machine, and
/// returns the stack they leave, or the first error, with the text printed.
pub fn run_program(preamble: Option<String>, tokens: &Vec<Token>) -> (r: (
    Result<Stack<isize>, Error>,
    String,
))
    ensures
        ({
            let (m, res) = program_outcome(text_of(preamble), tokens_view(tokens@));
            &&& r.1@ == m.out
            &&& match res {
                Ok(()) => r.0 matches Ok(s) && s@ == m.stack,
                Err(x) => r.0 == Err::<Stack<isize>, Error>(x),
            }
        }),
{
    let mut interpreter = Interpreter::new();
    match preamble {
        Some(text) => match interpreter.load_std(text) {
            Ok(()) => {},
            Err(x) => {
                let out = string_of(interpreter.out.as_slice());
                return (Err(x), out);
            },
        },
        None => {},
    }
    match interpreter.interpret(tokens) {
        Ok(()) => {
            let out = string_of(interpreter.out.as_slice());
            (Ok(interpreter.stack), out)
        },
        Err(x) => {
            let out = string_of(interpreter.out.as_slice());
            (Err(x), out)
        },
    }
}

} // verus!
