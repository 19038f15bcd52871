use vstd::prelude::*;
use crate::error::Error;
use crate::lexer::Node;
use crate::machine::{
    abs, assign, bind_names, var_index, binary, call_macro, exec_pattern, var_value, evaluate, exec_define, first_index, macro_names, var_names, div_trunc, exec_cond, exec_node, exec_ref, exec_repeat, exec_seq,
    exec_while, fits, is_binary, is_macro, is_var, macro_index, pop, push, repeat_n, while_loop,
    Machine,
};

verus! {

/// Adding or multiplying the two top values gives the same result, and the
/// same stack, whichever of the two was pushed first.
pub proof fn add_mul_commute(f: nat, n: Node, s: Seq<isize>, a: isize, b: isize, m: Machine)
    requires
        f > 0,
        n is Add || n is Mul,
    ensures
        ({
            let r1 = exec_node(f, n, Machine { stack: s.push(a).push(b), ..m });
            let r2 = exec_node(f, n, Machine { stack: s.push(b).push(a), ..m });
            &&& r1.1 == r2.1
            &&& r1.1 is Ok ==> r1.0 == r2.0
        }),
{
    let m1 = Machine { stack: s.push(a).push(b), ..m };
    let m2 = Machine { stack: s.push(b).push(a), ..m };
    assert(m1.stack[m1.stack.len() - 2] == a && m1.stack[m1.stack.len() - 1] == b);
    assert(m2.stack[m2.stack.len() - 2] == b && m2.stack[m2.stack.len() - 1] == a);
    assert(a * b == b * a) by (nonlinear_arith);
    assert(binary(n, a, b) == binary(n, b, a));
    assert(pop(pop(m1)).stack =~= s);
    assert(pop(pop(m2)).stack =~= s);
}

/// An arithmetic or comparison node on fewer than two values changes
/// nothing and raises no error.
pub proof fn short_arithmetic_is_noop(f: nat, n: Node, m: Machine)
    requires
        f > 0,
        is_binary(n),
        m.stack.len() < 2,
    ensures
        exec_node(f, n, m) == (m, Ok::<(), Error>(())),
{
}

/// Division pops `a` and `b` and pushes the quotient rounded toward zero:
/// `a == q * b + rem` where `rem` is smaller than `b` in size and is zero or
/// has the sign of `a`.
pub proof fn division_truncates(f: nat, s: Seq<isize>, a: isize, b: isize, m: Machine)
    requires
        f > 0,
        b != 0,
        fits(div_trunc(a as int, b as int)),
        m.stack == s.push(a).push(b),
    ensures
        ({
            let q = div_trunc(a as int, b as int);
            let rem = a - q * b;
            &&& exec_node(f, Node::Div, m) == (
                Machine { stack: s.push(q as isize), ..m },
                Ok::<(), Error>(()),
            )
            &&& abs(rem) < abs(b as int)
            &&& (rem == 0 || (rem < 0) == (a < 0))
        }),
{
    let q = div_trunc(a as int, b as int);
    assert(m.stack[m.stack.len() - 2] == a && m.stack[m.stack.len() - 1] == b);
    assert(push(pop(pop(m)), q as isize).stack =~= s.push(q as isize));
    let x = abs(a as int);
    let y = abs(b as int);
    let d = x / y;
    let r = x % y;
    assert(x == d * y + r && 0 <= r < y) by {
        vstd::arithmetic::div_mod::lemma_fundamental_div_mod(x, y);
        vstd::arithmetic::div_mod::lemma_mod_bound(x, y);
    }
    if a >= 0 && b > 0 {
        assert(a - q * b == r);
    } else if a < 0 && b < 0 {
        assert(q * b == -(d * y)) by (nonlinear_arith)
            requires
                q == d,
                b == -y,
        ;
    } else if a >= 0 {
        assert(q * b == d * y) by (nonlinear_arith)
            requires
                q == -d,
                b == -y,
        ;
    } else {
        assert(q * b == -(d * y)) by (nonlinear_arith)
            requires
                q == -d,
                b == y,
        ;
    }
}

/// A conditional without `else` on a zero top leaves the state as it is.
pub proof fn zero_without_else_keeps_top(f: nat, t: Node, m: Machine)
    requires
        f > 0,
        m.stack.len() >= 1,
        m.stack.last() == 0,
    ensures
        exec_node(f, Node::Cond(Box::new(t), Box::new(Node::Nothing)), m) == (
            m,
            Ok::<(), Error>(()),
        ),
{
}

/// A conditional on a nonzero top pops it and runs the then-branch.
pub proof fn nonzero_runs_then(f: nat, t: Node, e: Node, m: Machine)
    requires
        f > 0,
        m.stack.len() >= 1,
        m.stack.last() != 0,
    ensures
        exec_node(f, Node::Cond(Box::new(t), Box::new(e)), m) == exec_node(
            (f - 1) as nat,
            t,
            pop(m),
        ),
{
}

/// `repeat` with a count that is not positive pops the count and runs
/// nothing.
pub proof fn repeat_nonpositive_runs_nothing(f: nat, b: Node, m: Machine)
    requires
        f > 0,
        m.stack.len() >= 1,
        m.stack.last() <= 0,
    ensures
        exec_node(f, Node::Repeat(Box::new(b)), m) == (pop(m), Ok::<(), Error>(())),
{
    let g = (f - 1) as nat;
    assert(exec_node(f, Node::Repeat(Box::new(b)), m) == exec_repeat(g, b, m));
    assert(exec_repeat(g, b, m) == repeat_n(g, 0, b, pop(m)));
}

/// Binding a macro's name fails with `IdIsMacro` and changes nothing.
pub proof fn bind_to_macro_fails(f: nat, name: Seq<char>, m: Machine)
    requires
        f > 0,
        is_macro(m, name),
    ensures
        exec_node(f, Node::Bind(name), m) == (m, Err::<(), Error>(Error::IdIsMacro)),
{
}

/// A name that is neither a variable nor a macro fails with `IdNotFound`.
pub proof fn unknown_name_fails(f: nat, name: Seq<char>, m: Machine)
    requires
        f > 0,
        !is_var(m, name),
        !is_macro(m, name),
    ensures
        exec_node(f, Node::Ref(name), m) == (m, Err::<(), Error>(Error::IdNotFound)),
{
}

/// A macro call does not depend on the caller's variables: from two states
/// that differ only there, it leaves the same stack, output and macros and
/// the same result, and on success each caller gets its own variables back.
pub proof fn macro_cannot_see_caller_vars(f: nat, name: Seq<char>, m1: Machine, m2: Machine)
    requires
        f > 0,
        m1.stack == m2.stack,
        m1.macros == m2.macros,
        m1.out == m2.out,
        is_macro(m1, name),
        !is_var(m1, name),
        !is_var(m2, name),
    ensures
        ({
            let r1 = exec_node(f, Node::Ref(name), m1);
            let r2 = exec_node(f, Node::Ref(name), m2);
            &&& r1.1 == r2.1
            &&& r1.0.stack == r2.0.stack
            &&& r1.0.out == r2.0.out
            &&& r1.0.macros == r2.0.macros
            &&& r1.1 is Ok ==> r1.0.vars == m1.vars && r2.0.vars == m2.vars
        }),
{
    let g = (f - 1) as nat;
    let k = macro_index(m1, name);
    assert(macro_index(m1, name) == macro_index(m2, name));
    assert((Machine { vars: Seq::empty(), ..m1 }) == (Machine { vars: Seq::empty(), ..m2 }));
    assert(exec_node(f, Node::Ref(name), m1) == exec_ref(g, name, m1));
    assert(exec_node(f, Node::Ref(name), m2) == exec_ref(g, name, m2));
    assert(exec_ref(g, name, m1) == call_macro(g, k, m1));
    assert(exec_ref(g, name, m2) == call_macro(g, k, m2));
}

/// Calling a macro with fewer stack values than its declared minimum fails
/// with `MacroArity` and changes nothing.
pub proof fn macro_arity_enforced(f: nat, name: Seq<char>, m: Machine)
    requires
        f > 0,
        is_macro(m, name),
        !is_var(m, name),
        m.stack.len() < m.macros[macro_index(m, name)].1,
    ensures
        exec_node(f, Node::Ref(name), m) == (
            m,
            Err::<(), Error>(Error::MacroArity(m.macros[macro_index(m, name)].1)),
        ),
{
    let g = (f - 1) as nat;
    assert(exec_node(f, Node::Ref(name), m) == exec_ref(g, name, m));
    assert(exec_ref(g, name, m) == call_macro(g, macro_index(m, name), m));
}

/// A run that does not run out of fuel gives the same state and result with
/// any larger amount of fuel.
pub proof fn fuel_mono_node(f: nat, g: nat, n: Node, m: Machine)
    requires
        f <= g,
        exec_node(f, n, m).1 != Err::<(), Error>(Error::OutOfFuel),
    ensures
        exec_node(g, n, m) == exec_node(f, n, m),
    decreases f, 0nat, 0nat,
{
    let f1 = (f - 1) as nat;
    let g1 = (g - 1) as nat;
    match n {
        Node::Group(cs) => fuel_mono_seq(f1, g1, cs, 0, m),
        Node::Ref(name) => fuel_mono_ref(f1, g1, name, m),
        Node::Repeat(b) => fuel_mono_repeat(f1, g1, *b, m),
        Node::While(b) => fuel_mono_while(f1, g1, *b, m),
        Node::Cond(a, b) => fuel_mono_cond(f1, g1, *a, *b, m),
        _ => {},
    }
}

/// `fuel_mono_node` for a sequence of nodes.
pub proof fn fuel_mono_seq(f: nat, g: nat, ns: Seq<Node>, i: int, m: Machine)
    requires
        f <= g,
        exec_seq(f, ns, i, m).1 != Err::<(), Error>(Error::OutOfFuel),
    ensures
        exec_seq(g, ns, i, m) == exec_seq(f, ns, i, m),
    decreases f, 1nat, ns.len() - i,
{
    if 0 <= i < ns.len() {
        fuel_mono_node(f, g, ns[i], m);
        if let (m1, Ok(())) = exec_node(f, ns[i], m) {
            fuel_mono_seq(f, g, ns, i + 1, m1);
        }
    }
}

proof fn fuel_mono_ref(f: nat, g: nat, name: Seq<char>, m: Machine)
    requires
        f <= g,
        exec_ref(f, name, m).1 != Err::<(), Error>(Error::OutOfFuel),
    ensures
        exec_ref(g, name, m) == exec_ref(f, name, m),
    decreases f, 2nat, 0nat,
{
    if !is_var(m, name) && is_macro(m, name) {
        fuel_mono_call(f, g, macro_index(m, name), m);
    }
}

proof fn fuel_mono_call(f: nat, g: nat, k: int, m: Machine)
    requires
        f <= g,
        call_macro(f, k, m).1 != Err::<(), Error>(Error::OutOfFuel),
    ensures
        call_macro(g, k, m) == call_macro(f, k, m),
    decreases f, 1nat, 0nat,
{
    if m.stack.len() >= m.macros[k].1 {
        fuel_mono_node(f, g, m.macros[k].2, Machine { vars: Seq::empty(), ..m });
    }
}

proof fn fuel_mono_repeat(f: nat, g: nat, b: Node, m: Machine)
    requires
        f <= g,
        exec_repeat(f, b, m).1 != Err::<(), Error>(Error::OutOfFuel),
    ensures
        exec_repeat(g, b, m) == exec_repeat(f, b, m),
    decreases f, 2nat, 0nat,
{
    if m.stack.len() >= 1 {
        let k = m.stack.last();
        fuel_mono_repeat_n(f, g, if k <= 0 { 0 } else { k as nat }, b, pop(m));
    }
}

proof fn fuel_mono_repeat_n(f: nat, g: nat, k: nat, b: Node, m: Machine)
    requires
        f <= g,
        repeat_n(f, k, b, m).1 != Err::<(), Error>(Error::OutOfFuel),
    ensures
        repeat_n(g, k, b, m) == repeat_n(f, k, b, m),
    decreases f, 1nat, k,
{
    if k > 0 {
        fuel_mono_node(f, g, b, m);
        if let (m1, Ok(())) = exec_node(f, b, m) {
            fuel_mono_repeat_n(f, g, (k - 1) as nat, b, m1);
        }
    }
}

proof fn fuel_mono_while(f: nat, g: nat, b: Node, m: Machine)
    requires
        f <= g,
        exec_while(f, b, m).1 != Err::<(), Error>(Error::OutOfFuel),
    ensures
        exec_while(g, b, m) == exec_while(f, b, m),
    decreases f, 2nat, 0nat,
{
    if m.stack.len() >= 1 {
        fuel_mono_loop(f, g, b, m);
    }
}

proof fn fuel_mono_loop(f: nat, g: nat, b: Node, m: Machine)
    requires
        f <= g,
        while_loop(f, b, m).1 != Err::<(), Error>(Error::OutOfFuel),
    ensures
        while_loop(g, b, m) == while_loop(f, b, m),
    decreases f, 1nat, 0nat,
{
    fuel_mono_node(f, g, b, m);
    if let (m1, Ok(())) = exec_node(f, b, m) {
        if m1.stack.len() > 0 && m1.stack.last() != 0 {
            fuel_mono_loop((f - 1) as nat, (g - 1) as nat, b, m1);
        }
    }
}

proof fn fuel_mono_cond(f: nat, g: nat, a: Node, b: Node, m: Machine)
    requires
        f <= g,
        exec_cond(f, a, b, m).1 != Err::<(), Error>(Error::OutOfFuel),
    ensures
        exec_cond(g, a, b, m) == exec_cond(f, a, b, m),
    decreases f, 1nat, 0nat,
{
    if m.stack.len() >= 1 {
        if m.stack.last() != 0 {
            fuel_mono_node(f, g, a, pop(m));
        } else if !(b is Nothing) {
            fuel_mono_node(f, g, b, pop(m));
        }
    }
}

/// No name occurs twice.
pub open spec fn no_dups(s: Seq<Seq<char>>) -> bool {
    forall|i: int, j: int| 0 <= i < j < s.len() ==> s[i] != s[j]
}

proof fn lemma_first_index(names: Seq<Seq<char>>, name: Seq<char>, i: int)
    requires
        0 <= i,
    ensures
        first_index(names, name, i) == -1 ==> forall|j: int|
            i <= j < names.len() ==> names[j] != name,
        first_index(names, name, i) != -1 ==> i <= first_index(names, name, i) < names.len()
            && names[first_index(names, name, i)] == name,
    decreases names.len() - i,
{
    if i < names.len() && names[i] != name {
        lemma_first_index(names, name, i + 1);
    }
}

/// Binding a variable keeps the variables' names free of duplicates.
pub proof fn assign_keeps_names_unique(m: Machine, name: Seq<char>, v: isize)
    requires
        no_dups(var_names(m.vars)),
    ensures
        no_dups(var_names(assign(m, name, v).vars)),
{
    let names = var_names(m.vars);
    lemma_first_index(names, name, 0);
    let k = first_index(names, name, 0);
    if k >= 0 {
        assert(var_names(assign(m, name, v).vars) =~= names);
    } else {
        assert(var_names(assign(m, name, v).vars) =~= names.push(name));
    }
}

proof fn lemma_evaluate_keeps_macros(n: Node, m: Machine)
    ensures
        evaluate(n, m).0.macros == m.macros,
    decreases n,
{
    if let Node::Size(c) = n {
        lemma_evaluate_keeps_macros(*c, m);
    }
}

/// Defining a macro keeps the macros' names free of duplicates.
pub proof fn define_keeps_names_unique(name: Seq<char>, size: Node, body: Node, m: Machine)
    requires
        no_dups(macro_names(m.macros)),
    ensures
        no_dups(macro_names(exec_define(name, size, body, m).0.macros)),
{
    let names = macro_names(m.macros);
    lemma_first_index(names, name, 0);
    lemma_evaluate_keeps_macros(size, m);
    if !is_macro(m, name) {
        if let (m1, Ok(v)) = evaluate(size, m) {
            assert(macro_names(m1.macros.push((name, v, body))) =~= names.push(name));
        }
    }
}

/// A group runs its children in order on the same machine, as a sequence
/// given the same fuel would.
pub proof fn group_runs_children(f: nat, cs: Seq<Node>, m: Machine)
    requires
        exec_node(f, Node::Group(cs), m).1 != Err::<(), Error>(Error::OutOfFuel),
    ensures
        exec_node(f, Node::Group(cs), m) == exec_seq(f, cs, 0, m),
{
    fuel_mono_seq((f - 1) as nat, f, cs, 0, m);
}

/// A conditional on a nonzero top pops it and runs the then-branch as that
/// branch on its own would run with the same fuel.
pub proof fn cond_runs_then(f: nat, t: Node, e: Node, m: Machine)
    requires
        m.stack.len() >= 1,
        m.stack.last() != 0,
        exec_node(f, Node::Cond(Box::new(t), Box::new(e)), m).1 != Err::<(), Error>(
            Error::OutOfFuel,
        ),
    ensures
        exec_node(f, Node::Cond(Box::new(t), Box::new(e)), m) == exec_node(f, t, pop(m)),
{
    fuel_mono_node((f - 1) as nat, f, t, pop(m));
}

/// A macro call with enough values runs the body on the same stack with no
/// variables, as the body on its own would run with the same fuel, and gives
/// the caller's variables back when the body succeeds.
pub proof fn macro_call_runs_body(f: nat, name: Seq<char>, m: Machine)
    requires
        !is_var(m, name),
        is_macro(m, name),
        m.stack.len() >= m.macros[macro_index(m, name)].1,
        exec_node(f, Node::Ref(name), m).1 != Err::<(), Error>(Error::OutOfFuel),
    ensures
        ({
            let body = m.macros[macro_index(m, name)].2;
            let r = exec_node(f, body, Machine { vars: Seq::empty(), ..m });
            exec_node(f, Node::Ref(name), m) == match r {
                (m1, Ok(())) => (Machine { vars: m.vars, ..m1 }, Ok(())),
                (m1, Err(x)) => (m1, Err(x)),
            }
        }),
{
    let g = (f - 1) as nat;
    let body = m.macros[macro_index(m, name)].2;
    assert(exec_node(f, Node::Ref(name), m) == exec_ref(g, name, m));
    assert(exec_ref(g, name, m) == call_macro(g, macro_index(m, name), m));
    fuel_mono_node(g, f, body, Machine { vars: Seq::empty(), ..m });
}

/// `@name` on a nonempty stack, where `name` is no macro, pops the top into
/// the variable `name`.
pub proof fn bind_pops_into_variable(f: nat, name: Seq<char>, m: Machine)
    requires
        f > 0,
        !is_macro(m, name),
        m.stack.len() >= 1,
    ensures
        exec_node(f, Node::Bind(name), m) == (
            assign(pop(m), name, m.stack.last()),
            Ok::<(), Error>(()),
        ),
        is_var(assign(pop(m), name, m.stack.last()), name),
        var_value(assign(pop(m), name, m.stack.last()), name) == m.stack.last(),
{
    let m1 = pop(m);
    let names = var_names(m1.vars);
    lemma_first_index(names, name, 0);
    let m2 = assign(m1, name, m.stack.last());
    let k0 = first_index(names, name, 0);
    if k0 == -1 {
        assert(var_names(m2.vars) =~= names.push(name));
        lemma_first_index(var_names(m2.vars), name, 0);
        assert(var_names(m2.vars)[names.len() as int] == name);
        let k = first_index(var_names(m2.vars), name, 0);
        assert(k != -1);
        if k < names.len() {
            assert(var_names(m2.vars)[k] == names[k]);
        }
        assert(k == names.len());
    } else {
        assert(var_names(m2.vars) =~= names);
        assert(var_index(m2, name) == k0);
    }
}

proof fn lemma_bind_names_stack(names: Seq<Seq<char>>, i: int, m: Machine)
    requires
        0 <= i <= names.len(),
        i <= m.stack.len(),
        forall|j: int| 0 <= j < names.len() ==> !is_macro(m, #[trigger] names[j]),
    ensures
        bind_names(names, i, m).1 == Ok::<(), Error>(()),
        bind_names(names, i, m).0.stack == m.stack.take(m.stack.len() - i),
        bind_names(names, i, m).0.macros == m.macros,
        bind_names(names, i, m).0.out == m.out,
    decreases i,
{
    if i > 0 {
        let m1 = assign(pop(m), names[i - 1], m.stack.last());
        assert(forall|j: int| 0 <= j < names.len() ==> !is_macro(m1, #[trigger] names[j]));
        lemma_bind_names_stack(names, i - 1, m1);
        assert(m1.stack.take(m1.stack.len() - (i - 1)) =~= m.stack.take(m.stack.len() - i));
    } else {
        assert(m.stack.take(m.stack.len() as int) =~= m.stack);
    }
}

/// A mapping pattern whose names are no macros, on a stack with at least as
/// many values as names, succeeds and takes exactly that many values off
/// the top.
pub proof fn pattern_consumes_one_value_per_name(f: nat, names: Seq<Seq<char>>, m: Machine)
    requires
        f > 0,
        names.len() <= m.stack.len(),
        forall|j: int| 0 <= j < names.len() ==> !is_macro(m, #[trigger] names[j]),
    ensures
        exec_node(f, Node::Pattern(names), m).1 == Ok::<(), Error>(()),
        exec_node(f, Node::Pattern(names), m).0.stack == m.stack.take(
            m.stack.len() - names.len(),
        ),
{
    lemma_bind_names_stack(names, names.len() as int, m);
}

proof fn lemma_first_index_push(names: Seq<Seq<char>>, a: Seq<char>, b: Seq<char>, i: int)
    requires
        a != b,
        0 <= i <= names.len(),
    ensures
        first_index(names.push(a), b, i) == first_index(names, b, i),
    decreases names.len() - i,
{
    let pushed = names.push(a);
    if i < names.len() {
        assert(pushed[i] == names[i]);
        if names[i] != b {
            lemma_first_index_push(names, a, b, i + 1);
        }
    } else {
        assert(pushed[i] == a);
        assert(first_index(pushed, b, i + 1) == -1);
    }
}

/// Binding `a` leaves where and to what any other name is bound.
proof fn lemma_assign_other(m: Machine, a: Seq<char>, v: isize, b: Seq<char>)
    requires
        a != b,
    ensures
        var_index(assign(m, a, v), b) == var_index(m, b),
        is_var(m, b) ==> var_value(assign(m, a, v), b) == var_value(m, b),
{
    let names = var_names(m.vars);
    lemma_first_index(names, a, 0);
    lemma_first_index(names, b, 0);
    let m2 = assign(m, a, v);
    if first_index(names, a, 0) >= 0 {
        assert(var_names(m2.vars) =~= names);
    } else {
        assert(var_names(m2.vars) =~= names.push(a));
        lemma_first_index_push(names, a, b, 0);
    }
}

proof fn lemma_bind_names_values(names: Seq<Seq<char>>, i: int, m: Machine)
    requires
        0 <= i <= names.len(),
        i <= m.stack.len(),
        no_dups(names),
        forall|j: int| 0 <= j < names.len() ==> !is_macro(m, #[trigger] names[j]),
    ensures
        forall|j: int|
            0 <= j < i ==> is_var(bind_names(names, i, m).0, #[trigger] names[j]) && var_value(
                bind_names(names, i, m).0,
                names[j],
            ) == m.stack[m.stack.len() - i + j],
        forall|x: Seq<char>|
            (forall|j: int| 0 <= j < i ==> names[j] != x) ==> var_index(
                #[trigger] bind_names(names, i, m).0,
                x,
            ) == var_index(m, x) && (is_var(m, x) ==> var_value(bind_names(names, i, m).0, x)
                == var_value(m, x)),
    decreases i,
{
    if i > 0 {
        let a = names[i - 1];
        let top = m.stack.last();
        let m1 = assign(pop(m), a, top);
        assert(forall|j: int| 0 <= j < names.len() ==> !is_macro(m1, #[trigger] names[j]));
        lemma_bind_names_values(names, i - 1, m1);
        let r = bind_names(names, i - 1, m1).0;
        assert(r == bind_names(names, i, m).0);
        bind_pops_into_variable(1, a, m);
        assert forall|j: int| 0 <= j < i - 1 implies names[j] != a by {
            assert(names[j] != names[i - 1]);
        }
        assert forall|x: Seq<char>| (forall|j: int| 0 <= j < i ==> names[j] != x) implies var_index(
            #[trigger] bind_names(names, i, m).0,
            x,
        ) == var_index(m, x) && (is_var(m, x) ==> var_value(bind_names(names, i, m).0, x)
            == var_value(m, x)) by {
            assert(names[i - 1] != x);
            lemma_assign_other(pop(m), a, top, x);
            assert(forall|j: int| 0 <= j < i - 1 ==> names[j] != x);
        }
    }
}

/// A mapping pattern of distinct names, none of them a macro, on a stack with
/// enough values binds each name to the value at its place: the last name to
/// the top, the one before it to the value below, and so on.
pub proof fn pattern_binds_in_order(f: nat, names: Seq<Seq<char>>, m: Machine)
    requires
        f > 0,
        names.len() <= m.stack.len(),
        no_dups(names),
        forall|j: int| 0 <= j < names.len() ==> !is_macro(m, #[trigger] names[j]),
    ensures
        forall|j: int|
            0 <= j < names.len() ==> is_var(exec_node(f, Node::Pattern(names), m).0, #[trigger] names[j])
                && var_value(exec_node(f, Node::Pattern(names), m).0, names[j])
                == m.stack[m.stack.len() - names.len() + j],
{
    lemma_bind_names_values(names, names.len() as int, m);
}

} // verus!
