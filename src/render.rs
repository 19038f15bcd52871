use vstd::prelude::*;
use crate::lexer::{is_keyword, is_special, names_view, tokens_view, Node, Token, TYPES};
use crate::text::{chars_of, decimal, decimal_chars, is_letter, is_word_char, push_text, string_of};

verus! {

broadcast use vstd::seq::group_seq_axioms;

/// The source text of a node: the inverse of parsing on printable trees.
pub open spec fn render(n: Node) -> Seq<char>
    decreases n, 0nat,
{
    match n {
        Node::Int(v) => decimal(v),
        Node::Group(cs) => seq!['('] + render_list(cs) + seq![')'],
        Node::Pattern(ws) => seq!['{'] + join_words(ws) + seq!['}'],
        Node::Size(c) => seq!['['] + render(*c) + seq![']'],
        Node::Add => seq!['+'],
        Node::Sub => seq!['-'],
        Node::Mul => seq!['*'],
        Node::Div => seq!['/'],
        Node::Eq => seq!['='],
        Node::Lt => seq!['<'],
        Node::Gt => seq!['>'],
        Node::Not => seq!['!'],
        Node::Cond(a, b) => if *b is Nothing {
            "if "@ + render(*a)
        } else {
            "if "@ + render(*a) + " else "@ + render(*b)
        },
        Node::Repeat(b) => "repeat "@ + render(*b),
        Node::While(b) => "while "@ + render(*b),
        Node::Bind(w) => seq!['@'] + w,
        Node::Ref(w) => w,
        Node::Macro(name, size, body) => "macro"@ + (if *size is Nothing {
            Seq::empty()
        } else {
            render(*size)
        }) + seq![' '] + name + seq![' '] + render(*body),
        Node::Print => "print"@,
        Node::Special(w) => w,
        _ => Seq::empty(),
    }
}

/// The source text of a sequence of nodes, separated by single spaces.
pub open spec fn render_list(cs: Seq<Node>) -> Seq<char>
    decreases cs, 1nat,
{
    if cs.len() == 0 {
        Seq::empty()
    } else if cs.len() == 1 {
        render(cs[0])
    } else {
        render(cs[0]) + seq![' '] + render_list(cs.drop_first())
    }
}

/// Words separated by single spaces.
pub open spec fn join_words(ws: Seq<Seq<char>>) -> Seq<char>
    decreases ws.len(),
{
    if ws.len() == 0 {
        Seq::empty()
    } else if ws.len() == 1 {
        ws[0]
    } else {
        ws[0] + seq![' '] + join_words(ws.drop_first())
    }
}

/// A letter followed by letters, digits and underscores.
pub open spec fn is_ident(w: Seq<char>) -> bool {
    w.len() >= 1 && is_letter(w[0]) && forall|i: int| 0 <= i < w.len() ==> is_word_char(#[trigger] w[i])
}

/// A word that the parser reads as a plain name.
pub open spec fn is_plain_name(w: Seq<char>) -> bool {
    is_ident(w) && w != "if"@ && w != "repeat"@ && w != "while"@ && w != "macro"@ && w != "print"@
        && !is_special(w)
}

/// Whether the text of `n` ends with an `if` that has no `else`, which would
/// take an `else` that followed it.
pub open spec fn ends_open(n: Node) -> bool
    decreases n,
{
    match n {
        Node::Cond(_, b) => if *b is Nothing {
            true
        } else {
            ends_open(*b)
        },
        Node::Repeat(b) => ends_open(*b),
        Node::While(b) => ends_open(*b),
        Node::Macro(_, _, b) => ends_open(*b),
        _ => false,
    }
}

/// Whether the text of `n` starts with `else`.
pub open spec fn starts_else(n: Node) -> bool {
    n is Ref && n->Ref_0.len() >= 4 && n->Ref_0.take(4) == "else"@
}

/// The trees that print and parse back to themselves: literals in range,
/// names that read back as names, a size that is a `[...]`,
/// and no `if` without `else` right before text that starts with `else`.
pub open spec fn printable(n: Node) -> bool
    decreases n, 0nat,
{
    match n {
        Node::Int(v) => 0 <= v <= isize::MAX,
        Node::Group(cs) => printable_list(cs),
        Node::Pattern(ws) => forall|i: int| 0 <= i < ws.len() ==> is_ident(#[trigger] ws[i]),
        Node::Size(c) => printable(*c),
        Node::Add | Node::Sub | Node::Mul | Node::Div | Node::Eq | Node::Lt | Node::Gt
        | Node::Not | Node::Print => true,
        Node::Cond(a, b) => printable(*a) && (*b is Nothing || (printable(*b) && !ends_open(*a))),
        Node::Repeat(b) => printable(*b),
        Node::While(b) => printable(*b),
        Node::Bind(w) => is_ident(w) && !is_keyword(w),
        Node::Ref(w) => is_plain_name(w),
        Node::Special(w) => is_special(w),
        Node::Macro(name, size, body) => is_plain_name(name) && (*size is Nothing
            || (*size is Size && printable(*size))) && printable(*body),
        _ => false,
    }
}

pub open spec fn printable_list(cs: Seq<Node>) -> bool
    decreases cs, 1nat,
{
    if cs.len() == 0 {
        true
    } else {
        printable(cs[0]) && printable_list(cs.drop_first()) && (cs.len() >= 2 ==> !(ends_open(
            cs[0],
        ) && starts_else(cs[1])))
    }
}

pub proof fn lemma_render_list_push(cs: Seq<Node>, n: Node)
    ensures
        render_list(cs.push(n)) == if cs.len() == 0 {
            render(n)
        } else {
            render_list(cs) + seq![' '] + render(n)
        },
    decreases cs.len(),
{
    if cs.len() == 0 {
        assert(cs.push(n) =~= seq![n]);
        assert(render_list(seq![n]) == render(seq![n][0]));
    } else if cs.len() == 1 {
        assert(cs.push(n).drop_first() =~= seq![n]);
        assert(render_list(seq![n]) == render(seq![n][0]));
        assert(cs.push(n)[0] == cs[0]);
        assert(render_list(cs.push(n)) == render(cs[0]) + seq![' '] + render_list(seq![n]));
    } else {
        lemma_render_list_push(cs.drop_first(), n);
        assert(cs.push(n).drop_first() =~= cs.drop_first().push(n));
        assert(render_list(cs.push(n)) =~= render_list(cs) + seq![' '] + render(n));
    }
}

pub proof fn lemma_join_words_push(ws: Seq<Seq<char>>, w: Seq<char>)
    ensures
        join_words(ws.push(w)) == if ws.len() == 0 {
            w
        } else {
            join_words(ws) + seq![' '] + w
        },
    decreases ws.len(),
{
    if ws.len() == 0 {
        assert(ws.push(w) =~= seq![w]);
        assert(join_words(seq![w]) == seq![w][0]);
    } else if ws.len() == 1 {
        assert(ws.push(w).drop_first() =~= seq![w]);
        assert(join_words(seq![w]) == seq![w][0]);
        assert(ws.push(w)[0] == ws[0]);
        assert(join_words(ws.push(w)) == ws[0] + seq![' '] + join_words(seq![w]));
    } else {
        lemma_join_words_push(ws.drop_first(), w);
        assert(ws.push(w).drop_first() =~= ws.drop_first().push(w));
        assert(join_words(ws.push(w)) =~= join_words(ws) + seq![' '] + w);
    }
}

fn push_chars(out: &mut Vec<char>, s: &String)
    ensures
        final(out)@ == old(out)@ + s@,
{
    let mut cs = chars_of(s.as_str());
    out.append(&mut cs);
}

impl Token {
    /// Appends the source text of this token's tree to `out`.
    pub fn render_into(&self, out: &mut Vec<char>)
        ensures
            final(out)@ == old(out)@ + render(self@),
        decreases self,
    {
        let ghost out0 = out@;
        match &self.token {
            TYPES::INT(v) => {
                let mut d = decimal_chars(*v);
                out.append(&mut d);
            },
            TYPES::BODY(v) => {
                proof {
                    crate::lexer::lemma_body_view(*v, self.start, self.stop);
                }
                let ghost ns = tokens_view(v@);
                out.push('(');
                let mut i: usize = 0;
                while i < v.len()
                    invariant
                        i <= v@.len(),
                        self.token == TYPES::BODY(*v),
                        ns == tokens_view(v@),
                        out@ == out0 + seq!['('] + render_list(ns.take(i as int)),
                    decreases v@.len() - i,
                {
                    assert(decreases_to!(*v => v[i as int]));
                    assert(decreases_to!(*self => self.token));
                    assert(decreases_to!(self.token => self.token->BODY_0));
                    if i > 0 {
                        out.push(' ');
                    }
                    v[i].render_into(out);
                    proof {
                        assert(ns.take(i + 1) =~= ns.take(i as int).push(v@[i as int]@));
                        lemma_render_list_push(ns.take(i as int), v@[i as int]@);
                    }
                    assert(out@ =~= out0 + seq!['('] + render_list(ns.take(i + 1)));
                    i = i + 1;
                }
                out.push(')');
                assert(ns.take(v@.len() as int) =~= ns);
                assert(out@ =~= out0 + render(self@));
            },
            TYPES::MAP(ws) => {
                let ghost names = names_view(ws@);
                out.push('{');
                let mut i: usize = 0;
                while i < ws.len()
                    invariant
                        i <= ws@.len(),
                        names == names_view(ws@),
                        out@ == out0 + seq!['{'] + join_words(names.take(i as int)),
                    decreases ws@.len() - i,
                {
                    if i > 0 {
                        out.push(' ');
                    }
                    push_chars(out, &ws[i]);
                    proof {
                        assert(names.take(i + 1) =~= names.take(i as int).push(ws@[i as int]@));
                        lemma_join_words_push(names.take(i as int), ws@[i as int]@);
                    }
                    assert(out@ =~= out0 + seq!['{'] + join_words(names.take(i + 1)));
                    i = i + 1;
                }
                out.push('}');
                assert(names.take(ws@.len() as int) =~= names);
                assert(out@ =~= out0 + render(self@));
            },
            TYPES::SIZE(c) => {
                out.push('[');
                c.render_into(out);
                out.push(']');
                assert(out@ =~= out0 + render(self@));
            },
            TYPES::ADD => {
                out.push('+');
                assert(out@ =~= out0 + render(self@));
            },
            TYPES::SUB => {
                out.push('-');
                assert(out@ =~= out0 + render(self@));
            },
            TYPES::MUL => {
                out.push('*');
                assert(out@ =~= out0 + render(self@));
            },
            TYPES::DIV => {
                out.push('/');
                assert(out@ =~= out0 + render(self@));
            },
            TYPES::EQ => {
                out.push('=');
                assert(out@ =~= out0 + render(self@));
            },
            TYPES::LT => {
                out.push('<');
                assert(out@ =~= out0 + render(self@));
            },
            TYPES::GT => {
                out.push('>');
                assert(out@ =~= out0 + render(self@));
            },
            TYPES::NOT => {
                out.push('!');
                assert(out@ =~= out0 + render(self@));
            },
            TYPES::IF(a, b) => {
                push_text(out, "if ");
                a.render_into(out);
                match b.token {
                    TYPES::NONE => {},
                    _ => {
                        assert(!(b@ is Nothing));
                        push_text(out, " else ");
                        b.render_into(out);
                    },
                }
                assert(out@ =~= out0 + render(self@));
            },
            TYPES::REPEAT(b) => {
                push_text(out, "repeat ");
                b.render_into(out);
                assert(out@ =~= out0 + render(self@));
            },
            TYPES::WHILE(b) => {
                push_text(out, "while ");
                b.render_into(out);
                assert(out@ =~= out0 + render(self@));
            },
            TYPES::SET(w) => {
                out.push('@');
                push_chars(out, w);
                assert(out@ =~= out0 + render(self@));
            },
            TYPES::ID(w) => push_chars(out, w),
            TYPES::VAR(w) => push_chars(out, w),
            TYPES::MACRO(name, size, body) => {
                push_text(out, "macro");
                match size.token {
                    TYPES::NONE => {},
                    _ => {
                        assert(!(size@ is Nothing));
                        size.render_into(out);
                    },
                }
                out.push(' ');
                push_chars(out, name);
                out.push(' ');
                body.render_into(out);
                assert(out@ =~= out0 + render(self@));
            },
            TYPES::PRINT => {
                push_text(out, "print");
            },
            _ => {
                assert(out@ =~= out0 + render(self@));
            },
        }
    }
}

/// The source text of a sequence of tokens, separated by single spaces.
pub fn render_tokens(tokens: &Vec<Token>) -> (r: String)
    ensures
        r@ == render_list(tokens_view(tokens@)),
{
    let ghost ns = tokens_view(tokens@);
    let mut out: Vec<char> = Vec::new();
    let mut i: usize = 0;
    while i < tokens.len()
        invariant
            i <= tokens@.len(),
            ns == tokens_view(tokens@),
            out@ == render_list(ns.take(i as int)),
        decreases tokens@.len() - i,
    {
        if i > 0 {
            out.push(' ');
        }
        tokens[i].render_into(&mut out);
        proof {
            assert(ns.take(i + 1) =~= ns.take(i as int).push(tokens@[i as int]@));
            lemma_render_list_push(ns.take(i as int), tokens@[i as int]@);
        }
        assert(out@ =~= render_list(ns.take(i + 1)));
        i = i + 1;
    }
    assert(ns.take(tokens@.len() as int) =~= ns);
    string_of(out.as_slice())
}

} // verus!
