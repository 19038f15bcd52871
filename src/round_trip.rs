use vstd::prelude::*;
use crate::lexer::{
    has_else, is_special, items_at, lemma_word_node, names_at, node_at, op_of, parse_all,
    parse_cond, parse_items, parse_macro, parse_names, parse_node, parse_word_node, remaining,
    word_end, Node,
};
use crate::render::{
    ends_open, is_ident, join_words, printable, printable_list, render, render_list, starts_else,
};
use crate::text::{
    digit_char, digit_len, digit_value, digits, digits_value, is_digit, is_letter, is_word_char,
    is_ws, lemma_digit_run, lemma_digits_value_nonneg, skip_ws, word_len, ws_len,
};

verus! {

broadcast use vstd::seq::group_seq_axioms;

/// Whether `t` holds `s` from position `p` on.
pub open spec fn holds(t: Seq<char>, p: int, s: Seq<char>) -> bool {
    0 <= p && p + s.len() <= t.len() && t.subrange(p, p + s.len()) == s
}

proof fn lemma_holds_split(t: Seq<char>, p: int, a: Seq<char>, b: Seq<char>)
    requires
        holds(t, p, a + b),
    ensures
        holds(t, p, a),
        holds(t, p + a.len(), b),
{
    let s = t.subrange(p, p + (a + b).len());
    assert(t.subrange(p, p + a.len()) =~= s.subrange(0, a.len() as int));
    assert(s.subrange(0, a.len() as int) =~= a);
    assert(t.subrange(p + a.len(), p + a.len() + b.len()) =~= s.subrange(
        a.len() as int,
        (a + b).len() as int,
    ));
    assert(s.subrange(a.len() as int, (a + b).len() as int) =~= b);
}

proof fn lemma_holds_index(t: Seq<char>, p: int, s: Seq<char>, i: int)
    requires
        holds(t, p, s),
        0 <= i < s.len(),
    ensures
        t[p + i] == s[i],
{
    assert(t.subrange(p, p + s.len())[i] == t[p + i]);
}

proof fn lemma_skip_here(t: Seq<char>, x: int)
    requires
        x >= t.len() || !is_ws(t[x]),
    ensures
        skip_ws(t, x) == x,
{
    assert(ws_len(t, x) == 0);
}

proof fn lemma_skip_space(t: Seq<char>, x: int)
    requires
        0 <= x < t.len(),
        is_ws(t[x]),
        x + 1 >= t.len() || !is_ws(t[x + 1]),
    ensures
        skip_ws(t, x) == x + 1,
{
    assert(ws_len(t, x + 1) == 0);
}

proof fn lemma_skip_idem(t: Seq<char>, x: int)
    ensures
        skip_ws(t, skip_ws(t, x)) == skip_ws(t, x),
    decreases t.len() - x,
{
    if 0 <= x < t.len() && is_ws(t[x]) {
        lemma_skip_idem(t, x + 1);
    }
}

proof fn lemma_digit_char(d: nat)
    requires
        d < 10,
    ensures
        is_digit(digit_char(d)),
        digit_value(digit_char(d)) == d,
{
}

proof fn lemma_digits(v: nat)
    ensures
        digits(v).len() >= 1,
        forall|i: int| 0 <= i < digits(v).len() ==> is_digit(#[trigger] digits(v)[i]),
        digits_value(digits(v)) == v,
    decreases v,
{
    if v < 10 {
        lemma_digit_char(v);
        assert(digits(v).drop_last() =~= Seq::<char>::empty());
        assert(digits(v).last() == digit_char(v));
        let d = digits(v);
        assert(digits_value(d) == digits_value(d.drop_last()) * 10 + digit_value(d.last()));
        assert(digits_value(d.drop_last()) == 0);
    } else {
        lemma_digits(v / 10);
        lemma_digit_char(v % 10);
        assert(digits(v).drop_last() =~= digits(v / 10));
        assert(digits(v).last() == digit_char(v % 10));
        vstd::arithmetic::div_mod::lemma_fundamental_div_mod(v as int, 10);
        let d = digits(v);
        assert(digits_value(d) == digits_value(d.drop_last()) * 10 + digit_value(d.last()));
        assert(digits_value(d.drop_last()) == v / 10);
        assert(digit_value(d.last()) == v % 10);
    }
}

proof fn lemma_digit_len(t: Seq<char>, p: int, n: int)
    requires
        0 <= p,
        0 <= n,
        p + n <= t.len(),
        forall|j: int| p <= j < p + n ==> is_digit(#[trigger] t[j]),
        p + n >= t.len() || !is_digit(t[p + n]),
    ensures
        digit_len(t, p) == n,
    decreases n,
{
    if n > 0 {
        lemma_digit_len(t, p + 1, n - 1);
    }
}

proof fn lemma_word_len(t: Seq<char>, p: int, n: int)
    requires
        0 <= p,
        0 <= n,
        p + n <= t.len(),
        forall|j: int| p <= j < p + n ==> is_word_char(#[trigger] t[j]),
        p + n >= t.len() || !is_word_char(t[p + n]),
    ensures
        word_len(t, p) == n,
    decreases n,
{
    if n > 0 {
        lemma_word_len(t, p + 1, n - 1);
    }
}

/// A word of `t` that starts at `p`, the first non-blank position from `q`.
proof fn lemma_word_at(t: Seq<char>, q: int, p: int, w: Seq<char>)
    requires
        skip_ws(t, q) == p,
        holds(t, p, w),
        w.len() >= 1,
        forall|i: int| 0 <= i < w.len() ==> is_word_char(#[trigger] w[i]),
        p + w.len() >= t.len() || !is_word_char(t[p + w.len()]),
    ensures
        word_end(t, q) == p + w.len(),
        word_len(t, p + 1) == w.len() - 1,
        t.subrange(p, p + w.len()) == w,
{
    assert forall|j: int| p + 1 <= j < p + w.len() implies is_word_char(#[trigger] t[j]) by {
        lemma_holds_index(t, p, w, j - p);
    }
    lemma_word_len(t, p + 1, w.len() - 1);
}

/// The first character of a printable node's text: never blank, never a
/// closing bracket, and an `e` only where the node is a name.
pub open spec fn head_ok(n: Node) -> bool {
    let r = render(n);
    r.len() >= 1 && !is_ws(r[0]) && r[0] != ')' && r[0] != ']' && r[0] != '}' && (r[0] == 'e'
        ==> n is Ref)
}

proof fn lemma_head(n: Node)
    requires
        printable(n),
    ensures
        head_ok(n),
{
    reveal_strlit("if ");
    reveal_strlit("repeat ");
    reveal_strlit("while ");
    reveal_strlit("macro");
    reveal_strlit("print");
    reveal_strlit("STACK");
    reveal_strlit("LENGTH");
    match n {
        Node::Int(v) => {
            lemma_digits(v as nat);
            assert(is_digit(render(n)[0]));
        },
        Node::Cond(a, b) => {
            if *b is Nothing {
                assert(render(n)[0] == 'i');
            } else {
                assert(render(n)[0] == 'i');
            }
        },
        Node::Repeat(_) => assert(render(n)[0] == 'r'),
        Node::While(_) => assert(render(n)[0] == 'w'),
        Node::Macro(_, size, _) => {
            if *size is Nothing {
                assert(render(n)[0] == 'm');
            } else {
                assert(render(n)[0] == 'm');
            }
        },
        Node::Print => assert(render(n)[0] == 'p'),
        Node::Special(w) => assert(render(n)[0] == 'S' || render(n)[0] == 'L'),
        Node::Ref(w) => assert(is_letter(w[0])),
        _ => {},
    }
}

/// Text that starts with a printable node that does not start with `else`
/// and is followed by a character outside words does not start with `else`.
proof fn lemma_no_else(n: Node, t: Seq<char>, x: int)
    requires
        printable(n),
        holds(t, x, render(n)),
        x + render(n).len() >= t.len() || !is_word_char(t[x + render(n).len()]),
        !starts_else(n),
    ensures
        !has_else(t, x),
{
    reveal_strlit("else");
    lemma_head(n);
    if has_else(t, x) {
        assert(t.subrange(x, x + 4)[0] == t[x]);
        lemma_holds_index(t, x, render(n), 0);
        assert(n is Ref);
        let w = render(n);
        if w.len() >= 4 {
            assert forall|i: int| 0 <= i < 4 implies w.take(4)[i] == "else"@[i] by {
                lemma_holds_index(t, x, w, i);
                assert(t.subrange(x, x + 4)[i] == t[x + i]);
            }
            assert(w.take(4) =~= "else"@);
        } else {
            let k = w.len() as int;
            assert(t.subrange(x, x + 4)[k] == t[x + k]);
            assert(is_word_char("else"@[k]));
        }
    }
}

/// What may follow the text of `n`: no word character, and no `else` where
/// `n` ends with an `if` that lacks one.
pub open spec fn follows_ok(t: Seq<char>, e: int, n: Node) -> bool {
    (e >= t.len() || !is_word_char(t[e])) && (ends_open(n) ==> !has_else(t, skip_ws(t, e)))
}

/// Where the parser stops after `n`: past the blanks that the search for an
/// `else` skipped, if `n` ends with an `if` that lacks one.
pub open spec fn end_after(t: Seq<char>, e: int, n: Node) -> int {
    if ends_open(n) {
        skip_ws(t, e)
    } else {
        e
    }
}

/// `n` is printed in `t` at `p`, the first non-blank position from `q`.
pub open spec fn placed(t: Seq<char>, q: int, p: int, n: Node) -> bool {
    &&& printable(n)
    &&& 0 <= q <= p
    &&& skip_ws(t, q) == p
    &&& holds(t, p, render(n))
    &&& follows_ok(t, p + render(n).len(), n)
}

proof fn lemma_node(n: Node, t: Seq<char>, q: int, p: int)
    requires
        placed(t, q, p, n),
    ensures
        node_at(t, q) == Ok::<(Node, int), crate::error::Error>(
            (n, end_after(t, p + render(n).len(), n)),
        ),
    decreases n, 1nat,
{
    lemma_head(n);
    lemma_holds_index(t, p, render(n), 0);
    match n {
        Node::Int(_) => lemma_int(n, t, q, p),
        Node::Group(cs) => lemma_group(n, t, q, p),
        Node::Pattern(ws) => lemma_pattern(n, t, q, p),
        Node::Size(_) => lemma_size(n, t, q, p),
        Node::Bind(_) => lemma_bind(n, t, q, p),
        Node::Ref(_) | Node::Special(_) | Node::Print => lemma_name(n, t, q, p),
        Node::Repeat(_) | Node::While(_) => lemma_loop(n, t, q, p),
        Node::Cond(_, _) => lemma_cond(n, t, q, p),
        Node::Macro(_, _, _) => lemma_macro(n, t, q, p),
        _ => lemma_op(n, t, q, p),
    }
}

proof fn lemma_not_else_at(t: Seq<char>, x: int)
    requires
        0 <= x < t.len(),
        t[x] != 'e',
    ensures
        !has_else(t, x),
{
    reveal_strlit("else");
    if has_else(t, x) {
        assert(t.subrange(x, x + 4)[0] == t[x]);
    }
}

/// Blanks before a printable node are skipped to its first character.
proof fn lemma_start(n: Node, t: Seq<char>, q: int, p: int)
    requires
        printable(n),
        holds(t, p, render(n)),
        p - 1 <= q <= p,
        0 <= q,
        q < p ==> is_ws(t[q]),
    ensures
        skip_ws(t, q) == p,
{
    lemma_head(n);
    lemma_holds_index(t, p, render(n), 0);
    lemma_skip_here(t, p);
    if q < p {
        lemma_skip_space(t, q);
    }
}

proof fn lemma_op(n: Node, t: Seq<char>, q: int, p: int)
    requires
        placed(t, q, p, n),
        n is Add || n is Sub || n is Mul || n is Div || n is Eq || n is Lt || n is Gt || n is Not,
    ensures
        node_at(t, q) == Ok::<(Node, int), crate::error::Error>(
            (n, end_after(t, p + render(n).len(), n)),
        ),
{
    lemma_holds_index(t, p, render(n), 0);
}

proof fn lemma_int(n: Node, t: Seq<char>, q: int, p: int)
    requires
        placed(t, q, p, n),
        n is Int,
    ensures
        node_at(t, q) == Ok::<(Node, int), crate::error::Error>(
            (n, end_after(t, p + render(n).len(), n)),
        ),
{
    let v = n->Int_0;
    let r = render(n);
    lemma_digits(v as nat);
    assert(r == digits(v as nat));
    lemma_holds_index(t, p, r, 0);
    assert forall|j: int| p + 1 <= j < p + r.len() implies is_digit(#[trigger] t[j]) by {
        lemma_holds_index(t, p, r, j - p);
    }
    lemma_digit_len(t, p + 1, r.len() - 1);
    assert(t.subrange(p, p + 1 + (r.len() - 1)) == r);
}

proof fn lemma_size(n: Node, t: Seq<char>, q: int, p: int)
    requires
        placed(t, q, p, n),
        n is Size,
    ensures
        node_at(t, q) == Ok::<(Node, int), crate::error::Error>(
            (n, end_after(t, p + render(n).len(), n)),
        ),
    decreases n, 0nat,
{
    reveal_strlit("else");
    let c = *n->Size_0;
    let rc = render(c);
    lemma_holds_split(t, p, seq!['['] + rc, seq![']']);
    lemma_holds_split(t, p, seq!['['], rc);
    let e = p + 1 + rc.len();
    lemma_holds_index(t, e, seq![']'], 0);
    lemma_holds_index(t, p, seq!['['], 0);
    lemma_start(c, t, p + 1, p + 1);
    lemma_skip_here(t, e);
    lemma_not_else_at(t, e);
    lemma_node(c, t, p + 1, p + 1);
}

proof fn lemma_bind(n: Node, t: Seq<char>, q: int, p: int)
    requires
        placed(t, q, p, n),
        n is Bind,
    ensures
        node_at(t, q) == Ok::<(Node, int), crate::error::Error>(
            (n, end_after(t, p + render(n).len(), n)),
        ),
{
    let w = n->Bind_0;
    lemma_holds_split(t, p, seq!['@'], w);
    lemma_holds_index(t, p, seq!['@'], 0);
    lemma_holds_index(t, p + 1, w, 0);
    assert forall|j: int| p + 1 <= j < p + 1 + w.len() implies is_word_char(#[trigger] t[j]) by {
        lemma_holds_index(t, p + 1, w, j - p - 1);
    }
    lemma_word_len(t, p + 1, w.len() as int);
}

/// A name, a special variable, or `print`: a word on its own.
proof fn lemma_name(n: Node, t: Seq<char>, q: int, p: int)
    requires
        placed(t, q, p, n),
        n is Ref || n is Special || n is Print,
    ensures
        node_at(t, q) == Ok::<(Node, int), crate::error::Error>(
            (n, end_after(t, p + render(n).len(), n)),
        ),
{
    reveal_strlit("if");
    reveal_strlit("else");
    reveal_strlit("repeat");
    reveal_strlit("while");
    reveal_strlit("macro");
    reveal_strlit("print");
    reveal_strlit("STACK");
    reveal_strlit("LENGTH");
    let w = render(n);
    lemma_head(n);
    lemma_holds_index(t, p, w, 0);
    assert(forall|i: int| 0 <= i < w.len() ==> is_word_char(#[trigger] w[i]));
    assert(is_letter(w[0]));
    lemma_word_at(t, q, p, w);
    lemma_word_node(t, q);
}

/// `repeat` or `while` and its body.
proof fn lemma_loop(n: Node, t: Seq<char>, q: int, p: int)
    requires
        placed(t, q, p, n),
        n is Repeat || n is While,
    ensures
        node_at(t, q) == Ok::<(Node, int), crate::error::Error>(
            (n, end_after(t, p + render(n).len(), n)),
        ),
    decreases n, 0nat,
{
    reveal_strlit("if");
    reveal_strlit("repeat");
    reveal_strlit("repeat ");
    reveal_strlit("while");
    reveal_strlit("while ");
    let b = if n is Repeat {
        *n->Repeat_0
    } else {
        *n->While_0
    };
    let kw = if n is Repeat {
        "repeat"@
    } else {
        "while"@
    };
    let rb = render(b);
    assert(render(n) =~= kw + (seq![' '] + rb));
    lemma_holds_split(t, p, kw, seq![' '] + rb);
    lemma_holds_split(t, p + kw.len(), seq![' '], rb);
    lemma_holds_index(t, p + kw.len(), seq![' '], 0);
    lemma_word_at(t, q, p, kw);
    lemma_start(b, t, p + kw.len(), p + kw.len() + 1);
    lemma_node(b, t, p + kw.len(), p + kw.len() + 1);
    lemma_holds_index(t, p, kw, 0);
    lemma_word_node(t, q);
}

proof fn lemma_cond(n: Node, t: Seq<char>, q: int, p: int)
    requires
        placed(t, q, p, n),
        n is Cond,
    ensures
        node_at(t, q) == Ok::<(Node, int), crate::error::Error>(
            (n, end_after(t, p + render(n).len(), n)),
        ),
    decreases n, 0nat,
{
    reveal_strlit("if");
    reveal_strlit("if ");
    reveal_strlit("else");
    reveal_strlit(" else ");
    let a = *n->Cond_0;
    let b = *n->Cond_1;
    let ra = render(a);
    let kw = "if"@;
    assert("if "@ =~= kw + seq![' ']);
    let tail = if b is Nothing {
        Seq::empty()
    } else {
        " else "@ + render(b)
    };
    assert(render(n) =~= kw + (seq![' '] + (ra + tail)));
    lemma_holds_split(t, p, kw, seq![' '] + (ra + tail));
    lemma_holds_split(t, p + 2, seq![' '], ra + tail);
    lemma_holds_split(t, p + 3, ra, tail);
    lemma_holds_index(t, p + 2, seq![' '], 0);
    lemma_word_at(t, q, p, kw);
    lemma_start(a, t, p + 2, p + 3);
    let ea = p + 3 + ra.len();
    if b is Nothing {
        assert(tail.len() == 0);
        lemma_node(a, t, p + 2, p + 3);
        lemma_skip_idem(t, ea);
        assert(parse_word_node(t, q) == parse_cond(t, q));
    } else {
        let rb = render(b);
        assert(" else "@ =~= seq![' '] + ("else"@ + seq![' ']));
        assert(tail =~= seq![' '] + ("else"@ + (seq![' '] + rb)));
        lemma_holds_split(t, ea, seq![' '], "else"@ + (seq![' '] + rb));
        lemma_holds_split(t, ea + 1, "else"@, seq![' '] + rb);
        lemma_holds_split(t, ea + 5, seq![' '], rb);
        lemma_holds_index(t, ea, seq![' '], 0);
        lemma_holds_index(t, ea + 1, "else"@, 0);
        lemma_holds_index(t, ea + 5, seq![' '], 0);
        lemma_node(a, t, p + 2, p + 3);
        lemma_skip_space(t, ea);
        assert(has_else(t, ea + 1));
        lemma_start(b, t, ea + 5, ea + 6);
        lemma_node(b, t, ea + 5, ea + 6);
        assert(parse_word_node(t, q) == parse_cond(t, q));
    }
    lemma_holds_index(t, p, kw, 0);
    lemma_word_node(t, q);
}

#[verifier::rlimit(100)]
proof fn lemma_macro(n: Node, t: Seq<char>, q: int, p: int)
    requires
        placed(t, q, p, n),
        n is Macro,
    ensures
        node_at(t, q) == Ok::<(Node, int), crate::error::Error>(
            (n, end_after(t, p + render(n).len(), n)),
        ),
    decreases n, 0nat,
{
    reveal_strlit("if");
    reveal_strlit("repeat");
    reveal_strlit("while");
    reveal_strlit("macro");
    let name = n->Macro_0;
    let size = *n->Macro_1;
    let body = *n->Macro_2;
    let kw = "macro"@;
    let rs = if size is Nothing {
        Seq::empty()
    } else {
        render(size)
    };
    let rb = render(body);
    let rest = seq![' '] + (name + (seq![' '] + rb));
    assert(render(n) =~= kw + (rs + rest));
    lemma_holds_split(t, p, kw, rs + rest);
    lemma_holds_split(t, p + 5, rs, rest);
    let e1 = p + 5 + rs.len();
    lemma_holds_split(t, e1, seq![' '], name + (seq![' '] + rb));
    lemma_holds_split(t, e1 + 1, name, seq![' '] + rb);
    let e2 = e1 + 1 + name.len();
    lemma_holds_split(t, e2, seq![' '], rb);
    lemma_holds_index(t, e1, seq![' '], 0);
    lemma_holds_index(t, e2, seq![' '], 0);
    if size is Nothing {
        assert(t[p + 5] == ' ');
    } else {
        lemma_holds_index(t, p + 5, rs, 0);
        assert(t[p + 5] == '[');
        lemma_start(size, t, p + 5, p + 5);
        lemma_node(size, t, p + 5, p + 5);
    }
    lemma_word_at(t, q, p, kw);
    let nm = Node::Ref(name);
    assert(render(nm) == name);
    lemma_start(nm, t, e1, e1 + 1);
    lemma_holds_index(t, e1 + 1 + name.len(), seq![' '] + rb, 0);
    lemma_name(nm, t, e1, e1 + 1);
    lemma_start(body, t, e2, e2 + 1);
    lemma_node(body, t, e2, e2 + 1);
    lemma_holds_index(t, p, kw, 0);
    lemma_word_node(t, q);
    assert(parse_word_node(t, q) == parse_macro(t, q));
}

/// The text after a list's first node: a blank or the closing bracket.
proof fn lemma_list_follow(cs: Seq<Node>, t: Seq<char>, x: int, close: char)
    requires
        cs.len() >= 1,
        holds(t, x, render_list(cs) + seq![close]),
    ensures
        holds(t, x, render(cs[0])),
        t[x + render(cs[0]).len()] == (if cs.len() == 1 { close } else { ' ' }),
        cs.len() >= 2 ==> holds(t, x + render(cs[0]).len() + 1, render_list(cs.drop_first()) + seq![close]),
{
    let r0 = render(cs[0]);
    if cs.len() == 1 {
        lemma_holds_split(t, x, r0, seq![close]);
        lemma_holds_index(t, x + r0.len(), seq![close], 0);
    } else {
        let l = render_list(cs.drop_first());
        assert(render_list(cs) + seq![close] =~= r0 + (seq![' '] + (l + seq![close])));
        lemma_holds_split(t, x, r0, seq![' '] + (l + seq![close]));
        lemma_holds_split(t, x + r0.len(), seq![' '], l + seq![close]);
        lemma_holds_index(t, x + r0.len(), seq![' '], 0);
    }
}

/// The items of a printed group, from at most one blank before the first.
proof fn lemma_items(cs: Seq<Node>, t: Seq<char>, q: int, p: int)
    requires
        printable_list(cs),
        p - 1 <= q <= p,
        0 <= q,
        q < p ==> is_ws(t[q]),
        holds(t, p, render_list(cs) + seq![')']),
    ensures
        items_at(t, q) == Ok::<(Seq<Node>, int), crate::error::Error>(
            (cs, p + render_list(cs).len() + 1),
        ),
    decreases cs, 2nat,
{
    reveal_strlit("else");
    if cs.len() == 0 {
        lemma_holds_index(t, p, render_list(cs) + seq![')'], 0);
        lemma_skip_here(t, p);
        if q < p {
            lemma_skip_space(t, q);
        }
        assert(parse_items(t, q) == Ok::<(Seq<Node>, nat), crate::error::Error>((Seq::empty(), ws_len(t, q))));
        assert(cs =~= Seq::<Node>::empty());
    } else {
        let c0 = cs[0];
        let r0 = render(c0);
        let e0 = p + r0.len();
        lemma_list_follow(cs, t, p, ')');
        lemma_start(c0, t, q, p);
        lemma_start(c0, t, p, p);
        lemma_head(c0);
        lemma_holds_index(t, p, r0, 0);
        assert(parse_items(t, q) == match parse_node(t, p) {
            Ok((n, k1)) => match parse_items(t, p + 1 + k1) {
                Ok((ns, k2)) => Ok((seq![n] + ns, ws_len(t, q) + 1 + k1 + k2)),
                Err(x) => Err(x),
            },
            Err(x) => Err(x),
        });
        let rest = cs.drop_first();
        if cs.len() == 1 {
            lemma_skip_here(t, e0);
            lemma_not_else_at(t, e0);
            lemma_node(c0, t, p, p);
            assert(render_list(rest) + seq![')'] =~= seq![')']);
            assert(t.subrange(e0, e0 + 1) =~= seq![')']);
            lemma_items(rest, t, e0, e0);
            assert(render_list(cs) == r0);
            assert(seq![c0] + rest =~= cs);
        } else {
            let c1 = cs[1];
            assert(rest[0] == c1);
            assert(printable_list(rest));
            assert(printable(rest[0]));
            lemma_list_follow(rest, t, e0 + 1, ')');
            lemma_start(c1, t, e0, e0 + 1);
            if ends_open(c0) {
                lemma_no_else(c1, t, e0 + 1);
            }
            lemma_node(c0, t, p, p);
            lemma_items(rest, t, end_after(t, e0, c0), e0 + 1);
            assert(seq![c0] + rest =~= cs);
            assert(render_list(cs).len() == r0.len() + 1 + render_list(rest).len());
            assert(items_at(t, q) == Ok::<(Seq<Node>, int), crate::error::Error>((cs, p + render_list(cs).len() + 1)));
        }
    }
}

/// The names of a printed pattern, from at most one blank before the first.
proof fn lemma_names(ws: Seq<Seq<char>>, t: Seq<char>, q: int, p: int)
    requires
        forall|i: int| 0 <= i < ws.len() ==> is_ident(#[trigger] ws[i]),
        p - 1 <= q <= p,
        0 <= q,
        q < p ==> is_ws(t[q]),
        holds(t, p, join_words(ws) + seq!['}']),
    ensures
        names_at(t, q) == Ok::<(Seq<Seq<char>>, int), crate::error::Error>(
            (ws, p + join_words(ws).len() + 1),
        ),
    decreases ws.len(),
{
    if ws.len() == 0 {
        lemma_holds_index(t, p, join_words(ws) + seq!['}'], 0);
        lemma_skip_here(t, p);
        if q < p {
            lemma_skip_space(t, q);
        }
        assert(ws =~= Seq::<Seq<char>>::empty());
    } else {
        let w0 = ws[0];
        let e0 = p + w0.len();
        let rest = ws.drop_first();
        assert(is_ident(w0));
        assert forall|i: int| 0 <= i < rest.len() implies is_ident(#[trigger] rest[i]) by {
            assert(rest[i] == ws[i + 1]);
        }
        let tail = if ws.len() == 1 {
            seq!['}']
        } else {
            seq![' '] + (join_words(rest) + seq!['}'])
        };
        assert(join_words(ws) + seq!['}'] =~= w0 + tail);
        lemma_holds_split(t, p, w0, tail);
        lemma_holds_index(t, e0, tail, 0);
        lemma_holds_index(t, p, w0, 0);
        lemma_skip_here(t, p);
        if q < p {
            lemma_skip_space(t, q);
        }
        lemma_word_at(t, p, p, w0);
        let k = word_len(t, p + 1);
        assert(k == w0.len() - 1);
        assert(t.subrange(p, p + 1 + k) == w0);
        assert(is_letter(t[p]));
        assert(parse_names(t, q) == match parse_names(t, e0) {
            Ok((ns, k2)) => Ok::<(Seq<Seq<char>>, nat), crate::error::Error>(
                (seq![w0] + ns, ws_len(t, q) + 1 + k + k2),
            ),
            Err(x) => Err(x),
        });
        if ws.len() == 1 {
            assert(t.subrange(e0, e0 + 1) =~= seq!['}']);
            assert(join_words(rest) + seq!['}'] =~= seq!['}']);
            lemma_names(rest, t, e0, e0);
            assert(join_words(ws) == w0);
        } else {
            lemma_holds_split(t, e0, seq![' '], join_words(rest) + seq!['}']);
            lemma_names(rest, t, e0, e0 + 1);
            assert(join_words(ws).len() == w0.len() + 1 + join_words(rest).len());
        }
        assert(seq![w0] + rest =~= ws);
    }
}

proof fn lemma_group(n: Node, t: Seq<char>, q: int, p: int)
    requires
        placed(t, q, p, n),
        n is Group,
    ensures
        node_at(t, q) == Ok::<(Node, int), crate::error::Error>(
            (n, end_after(t, p + render(n).len(), n)),
        ),
    decreases n, 0nat,
{
    let cs = n->Group_0;
    assert(render(n) =~= seq!['('] + (render_list(cs) + seq![')']));
    lemma_holds_split(t, p, seq!['('], render_list(cs) + seq![')']);
    lemma_holds_index(t, p, seq!['('], 0);
    lemma_items(cs, t, p + 1, p + 1);
}

proof fn lemma_pattern(n: Node, t: Seq<char>, q: int, p: int)
    requires
        placed(t, q, p, n),
        n is Pattern,
    ensures
        node_at(t, q) == Ok::<(Node, int), crate::error::Error>(
            (n, end_after(t, p + render(n).len(), n)),
        ),
{
    let ws = n->Pattern_0;
    assert(render(n) =~= seq!['{'] + (join_words(ws) + seq!['}']));
    lemma_holds_split(t, p, seq!['{'], join_words(ws) + seq!['}']);
    lemma_holds_index(t, p, seq!['{'], 0);
    lemma_names(ws, t, p + 1, p + 1);
}

/// The nodes of a printed sequence that runs to the end of the text.
proof fn lemma_all(cs: Seq<Node>, t: Seq<char>, q: int, p: int)
    requires
        printable_list(cs),
        p - 1 <= q <= p,
        0 <= q,
        q < p ==> is_ws(t[q]),
        holds(t, p, render_list(cs)),
        p + render_list(cs).len() == t.len(),
    ensures
        parse_all(t, q) == Ok::<Seq<Node>, crate::error::Error>(cs),
    decreases cs.len(),
{
    if cs.len() == 0 {
        lemma_skip_here(t, p);
        if q < p {
            lemma_skip_space(t, q);
        }
        assert(cs =~= Seq::<Node>::empty());
    } else {
        let c0 = cs[0];
        let r0 = render(c0);
        let e0 = p + r0.len();
        let rest = cs.drop_first();
        let tail = if cs.len() == 1 {
            Seq::empty()
        } else {
            seq![' '] + render_list(rest)
        };
        assert(render_list(cs) =~= r0 + tail);
        lemma_holds_split(t, p, r0, tail);
        lemma_start(c0, t, q, p);
        lemma_start(c0, t, p, p);
        assert(printable_list(rest));
        if cs.len() == 1 {
            lemma_skip_here(t, e0);
            lemma_node(c0, t, p, p);
            lemma_all(rest, t, e0, e0);
        } else {
            let c1 = cs[1];
            assert(rest[0] == c1);
            assert(printable(rest[0]));
            lemma_holds_split(t, e0, seq![' '], render_list(rest));
            lemma_holds_index(t, e0, tail, 0);
            let r1 = render(c1);
            let tail1 = if rest.len() == 1 {
                Seq::empty()
            } else {
                seq![' '] + render_list(rest.drop_first())
            };
            assert(render_list(rest) =~= r1 + tail1);
            lemma_holds_split(t, e0 + 1, r1, tail1);
            if rest.len() >= 2 {
                lemma_holds_index(t, e0 + 1 + r1.len(), tail1, 0);
            }
            lemma_start(c1, t, e0, e0 + 1);
            if ends_open(c0) {
                lemma_no_else(c1, t, e0 + 1);
            }
            lemma_node(c0, t, p, p);
            lemma_all(rest, t, end_after(t, e0, c0), e0 + 1);
        }
        assert(seq![c0] + rest =~= cs);
    }
}

/// Printing a well-formed sequence of nodes and parsing the text gives the
/// same nodes back.
pub proof fn parse_of_render(ns: Seq<Node>)
    requires
        printable_list(ns),
    ensures
        parse_all(render_list(ns), 0) == Ok::<Seq<Node>, crate::error::Error>(ns),
{
    let t = render_list(ns);
    assert(t.subrange(0, t.len() as int) =~= t);
    lemma_all(ns, t, 0, 0);
}

proof fn lemma_word_run(t: Seq<char>, p: int)
    requires
        0 <= p,
    ensures
        forall|j: int| p <= j < p + word_len(t, p) ==> is_word_char(#[trigger] t[j]),
        p <= t.len() ==> p + word_len(t, p) <= t.len(),
    decreases t.len() - p,
{
    if 0 <= p < t.len() && is_word_char(t[p]) {
        lemma_word_run(t, p + 1);
    }
}

proof fn lemma_digit_bound(t: Seq<char>, p: int)
    requires
        0 <= p <= t.len(),
    ensures
        p + digit_len(t, p) <= t.len(),
    decreases t.len() - p,
{
    if 0 <= p < t.len() && is_digit(t[p]) {
        lemma_digit_bound(t, p + 1);
    }
}

/// A word that starts with a letter is an identifier.
proof fn lemma_ident_at(t: Seq<char>, s: int)
    requires
        0 <= s < t.len(),
        is_letter(t[s]),
    ensures
        s + 1 + word_len(t, s + 1) <= t.len(),
        is_ident(t.subrange(s, s + 1 + word_len(t, s + 1))),
{
    lemma_word_run(t, s + 1);
    let w = t.subrange(s, s + 1 + word_len(t, s + 1));
    assert forall|i: int| 0 <= i < w.len() implies is_word_char(#[trigger] w[i]) by {
        if i > 0 {
            assert(w[i] == t[s + i]);
        }
    }
}

/// What holds of a node that the parser returns, where it started looking at
/// `q` and stopped at `e`: it is printable, an `if` without `else` at its end
/// stands before no `else`, and a node that starts with `else` stands where
/// the text does.
pub open spec fn parsed_ok(t: Seq<char>, q: int, n: Node, e: int) -> bool {
    &&& printable(n)
    &&& ends_open(n) ==> skip_ws(t, e) == e && !has_else(t, e)
    &&& starts_else(n) ==> has_else(t, skip_ws(t, q))
}

proof fn lemma_parsed_node(t: Seq<char>, q: int)
    requires
        0 <= q,
    ensures
        parse_node(t, q) matches Ok((n, k)) ==> parsed_ok(t, q, n, q + 1 + k),
    decreases remaining(t, q), 2nat,
{
    let s = skip_ws(t, q);
    if s < t.len() {
        let c = t[s];
        if is_digit(c) {
            let k = digit_len(t, s + 1);
            lemma_digit_run(t, s + 1);
            lemma_digit_bound(t, s + 1);
            let d = t.subrange(s, s + 1 + k);
            assert forall|j: int| 0 <= j < d.len() implies is_digit(#[trigger] d[j]) by {
                assert(d[j] == t[s + j]);
            }
            lemma_digits_value_nonneg(d);
        } else if c == '(' {
            lemma_parsed_items(t, s + 1);
        } else if c == '[' {
            lemma_parsed_node(t, s + 1);
        } else if c == '{' {
            lemma_parsed_names(t, s + 1);
        } else if c == '@' {
            if s + 1 < t.len() && is_letter(t[s + 1]) {
                lemma_ident_at(t, s + 1);
            }
        } else if op_of(c) is Some {
        } else if is_letter(c) {
            lemma_word_node(t, q);
            lemma_parsed_word(t, q);
        }
    }
}

proof fn lemma_parsed_word(t: Seq<char>, q: int)
    requires
        0 <= q,
        skip_ws(t, q) < t.len(),
        is_letter(t[skip_ws(t, q)]),
    ensures
        parse_word_node(t, q) matches Ok((n, k)) ==> parsed_ok(t, q, n, q + 1 + k),
    decreases remaining(t, q), 1nat,
{
    reveal_strlit("else");
    let s = skip_ws(t, q);
    let e = word_end(t, q);
    let word = t.subrange(s, e);
    lemma_ident_at(t, s);
    if word == "if"@ {
        lemma_parsed_cond(t, q);
    } else if word == "repeat"@ || word == "while"@ {
        lemma_parsed_node(t, e);
    } else if word == "macro"@ {
        lemma_parsed_macro(t, q);
    } else if word == "print"@ || is_special(word) {
    } else {
        if word.len() >= 4 && word.take(4) == "else"@ {
            assert(t.subrange(s, s + 4) =~= word.take(4));
        }
    }
}

proof fn lemma_parsed_cond(t: Seq<char>, q: int)
    requires
        0 <= q,
        skip_ws(t, q) < t.len(),
        is_letter(t[skip_ws(t, q)]),
    ensures
        parse_cond(t, q) matches Ok((n, k)) ==> parsed_ok(t, q, n, q + 1 + k),
    decreases remaining(t, q), 0nat,
{
    let s = skip_ws(t, q);
    let e = word_end(t, q);
    lemma_ident_at(t, s);
    lemma_parsed_node(t, e);
    if let Ok((a, k1)) = parse_node(t, e) {
        let e1 = e + 1 + k1;
        let s2 = skip_ws(t, e1);
        lemma_skip_idem(t, e1);
        if has_else(t, s2) {
            lemma_parsed_node(t, s2 + 4);
        }
    }
}

proof fn lemma_parsed_macro(t: Seq<char>, q: int)
    requires
        0 <= q,
        skip_ws(t, q) < t.len(),
        is_letter(t[skip_ws(t, q)]),
    ensures
        parse_macro(t, q) matches Ok((n, k)) ==> parsed_ok(t, q, n, q + 1 + k),
    decreases remaining(t, q), 0nat,
{
    let s = skip_ws(t, q);
    let e = word_end(t, q);
    lemma_ident_at(t, s);
    let sized = 0 <= e < t.len() && t[e] == '[';
    if sized {
        lemma_skip_here(t, e);
        lemma_parsed_node(t, e);
        assert(parse_node(t, e) is Err || parse_node(t, e)->Ok_0.0 is Size);
    }
    let size = if sized {
        parse_node(t, e)
    } else {
        Ok((Node::Nothing, 0nat))
    };
    if let Ok((size_n, k1)) = size {
        let e1 = if sized {
            e + 1 + k1
        } else {
            e
        };
        lemma_parsed_node(t, e1);
        if let Ok((Node::Ref(name), k2)) = parse_node(t, e1) {
            lemma_parsed_node(t, e1 + 1 + k2);
        }
    }
}

proof fn lemma_parsed_items(t: Seq<char>, q: int)
    requires
        0 <= q,
    ensures
        parse_items(t, q) matches Ok((ns, k)) ==> printable_list(ns) && (ns.len() > 0 && starts_else(
            ns[0],
        ) ==> has_else(t, skip_ws(t, q))),
    decreases remaining(t, q), 3nat,
{
    let q1 = skip_ws(t, q);
    if q1 < t.len() && t[q1] != ')' {
        lemma_parsed_node(t, q1);
        lemma_skip_idem(t, q);
        if let Ok((n, k1)) = parse_node(t, q1) {
            let e = q1 + 1 + k1;
            lemma_parsed_items(t, e);
            if let Ok((ns, k2)) = parse_items(t, e) {
                let all = seq![n] + ns;
                assert(all[0] == n);
                assert(all.drop_first() =~= ns);
                if ns.len() > 0 {
                    assert(all[1] == ns[0]);
                }
            }
        }
    }
}

proof fn lemma_parsed_names(t: Seq<char>, q: int)
    requires
        0 <= q,
    ensures
        parse_names(t, q) matches Ok((ws, k)) ==> forall|i: int| 0 <= i < ws.len() ==> is_ident(#[trigger] ws[i]),
    decreases remaining(t, q),
{
    let q1 = skip_ws(t, q);
    if q1 < t.len() && t[q1] != '}' && is_letter(t[q1]) {
        lemma_ident_at(t, q1);
        let e = q1 + 1 + word_len(t, q1 + 1);
        lemma_parsed_names(t, e);
        if let Ok((ws, k2)) = parse_names(t, e) {
            let all = seq![t.subrange(q1, e)] + ws;
            assert forall|i: int| 0 <= i < all.len() implies is_ident(#[trigger] all[i]) by {
                if i > 0 {
                    assert(all[i] == ws[i - 1]);
                }
            }
        }
    }
}

proof fn lemma_parsed_all(t: Seq<char>, q: int)
    requires
        0 <= q,
    ensures
        parse_all(t, q) matches Ok(ns) ==> printable_list(ns) && (ns.len() > 0 && starts_else(ns[0])
            ==> has_else(t, skip_ws(t, q))),
    decreases remaining(t, q),
{
    let q1 = skip_ws(t, q);
    if q1 < t.len() {
        lemma_parsed_node(t, q1);
        lemma_skip_idem(t, q);
        if let Ok((n, k1)) = parse_node(t, q1) {
            let e = q1 + 1 + k1;
            lemma_parsed_all(t, e);
            if let Ok(ns) = parse_all(t, e) {
                let all = seq![n] + ns;
                assert(all[0] == n);
                assert(all.drop_first() =~= ns);
                if ns.len() > 0 {
                    assert(all[1] == ns[0]);
                }
            }
        }
    }
}

/// Whatever a text parses to prints as text that parses to the same nodes.
pub proof fn reparse_of_parsed(t: Seq<char>)
    requires
        parse_all(t, 0) is Ok,
    ensures
        parse_all(render_list(parse_all(t, 0)->Ok_0), 0) == parse_all(t, 0),
{
    lemma_parsed_all(t, 0);
    parse_of_render(parse_all(t, 0)->Ok_0);
}

} // verus!
