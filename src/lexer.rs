use vstd::prelude::*;
use crate::error::{error_position, Error};
use crate::text::{
    chars_of, digit_len, digits_end_at, digits_to_isize, digits_value, is_digit, is_digit_char,
    is_letter, is_letter_char, is_ws, lemma_digit_run, skip_ws, skip_ws_at, spells, string_of,
    word_end_at, word_len, ws_len,
};

verus! {

broadcast use vstd::std_specs::vec::group_vec_axioms;

/// A named source text.
#[derive(Debug)]
pub struct File {
    pub name: String,
    pub text: String,
}

/// The kinds of token; a keyword's token holds the tokens it consumed.
#[derive(Debug, PartialEq)]
pub enum TYPES {
    NONE,
    INT(isize),
    TYPE,
    BODY(Vec<Token>),
    MAP(Vec<String>),
    SIZE(Box<Token>),
    ADD,
    SUB,
    MUL,
    DIV,
    EQ,
    NE,
    LT,
    GT,
    NOT,
    IF(Box<Token>, Box<Token>),
    REPEAT(Box<Token>),
    WHILE(Box<Token>),
    SET(String),
    ID(String),
    MACRO(String, Box<Token>, Box<Token>),
    PRINT,
    VAR(String),
}

/// A token with the span of source text it came from.
#[derive(Debug, PartialEq)]
pub struct Token {
    pub token: TYPES,
    pub start: usize,
    pub stop: usize,
}

/// The shape of a token tree: kinds, literals and names, without spans.
pub enum Node {
    Nothing,
    Int(int),
    Kind,
    Group(Seq<Node>),
    Pattern(Seq<Seq<char>>),
    Size(Box<Node>),
    Add,
    Sub,
    Mul,
    Div,
    Eq,
    Ne,
    Lt,
    Gt,
    Not,
    Cond(Box<Node>, Box<Node>),
    Repeat(Box<Node>),
    While(Box<Node>),
    Bind(Seq<char>),
    Ref(Seq<char>),
    Macro(Seq<char>, Box<Node>, Box<Node>),
    Print,
    Special(Seq<char>),
}

pub open spec fn names_view(v: Seq<String>) -> Seq<Seq<char>> {
    v.map_values(|s: String| s@)
}

/// The shapes of the first `n` tokens of `v`.
pub open spec fn nodes_of(v: Vec<Token>, n: nat) -> Seq<Node>
    decreases v, n,
{
    if n == 0 || n > v.len() {
        Seq::empty()
    } else {
        nodes_of(v, (n - 1) as nat).push(node_of(v@[n - 1]))
    }
}

/// The shape of a token.
pub open spec fn node_of(t: Token) -> Node
    decreases t, 0nat,
{
    match t.token {
        TYPES::NONE => Node::Nothing,
        TYPES::INT(v) => Node::Int(v as int),
        TYPES::TYPE => Node::Kind,
        TYPES::BODY(v) => Node::Group(nodes_of(v, v@.len())),
        TYPES::MAP(v) => Node::Pattern(names_view(v@)),
        TYPES::SIZE(b) => Node::Size(Box::new(node_of(*b))),
        TYPES::ADD => Node::Add,
        TYPES::SUB => Node::Sub,
        TYPES::MUL => Node::Mul,
        TYPES::DIV => Node::Div,
        TYPES::EQ => Node::Eq,
        TYPES::NE => Node::Ne,
        TYPES::LT => Node::Lt,
        TYPES::GT => Node::Gt,
        TYPES::NOT => Node::Not,
        TYPES::IF(a, b) => Node::Cond(Box::new(node_of(*a)), Box::new(node_of(*b))),
        TYPES::REPEAT(b) => Node::Repeat(Box::new(node_of(*b))),
        TYPES::WHILE(b) => Node::While(Box::new(node_of(*b))),
        TYPES::SET(s) => Node::Bind(s@),
        TYPES::ID(s) => Node::Ref(s@),
        TYPES::MACRO(s, a, b) => Node::Macro(s@, Box::new(node_of(*a)), Box::new(node_of(*b))),
        TYPES::PRINT => Node::Print,
        TYPES::VAR(s) => Node::Special(s@),
    }
}

impl Token {
    pub fn new(token: TYPES, start: usize, stop: usize) -> (r: Self)
        ensures
            r.token == token,
            r.start == start,
            r.stop == stop,
    {
        Self { token, start, stop }
    }

    /// The marker for an absent node.
    pub fn none() -> (r: Self)
        ensures
            r@ == Node::Nothing,
            r.start == 0,
            r.stop == 0,
    {
        Self { token: TYPES::NONE, start: 0, stop: 0 }
    }
}

impl TYPES {
    /// A copy of this kind and of the whole tree of tokens it holds.
    pub fn copy(&self) -> (r: TYPES)
        ensures
            kind_view(r) == kind_view(*self),
        decreases self,
    {
        match self {
            TYPES::NONE => TYPES::NONE,
            TYPES::INT(v) => TYPES::INT(*v),
            TYPES::TYPE => TYPES::TYPE,
            TYPES::BODY(v) => {
                let mut w: Vec<Token> = Vec::new();
                let mut i: usize = 0;
                while i < v.len()
                    invariant
                        i <= v@.len(),
                        *self == TYPES::BODY(*v),
                        tokens_view(w@) == tokens_view(v@.take(i as int)),
                    decreases v@.len() - i,
                {
                    assert(decreases_to!(*v => v[i as int]));
                    assert(decreases_to!(*self => self->BODY_0));
                    assert(decreases_to!(*self => v[i as int]));
                    let c = v[i].copy();
                    proof {
                        lemma_tokens_view_push(w@, c);
                        assert(v@.take(i + 1) =~= v@.take(i as int).push(v@[i as int]));
                        lemma_tokens_view_push(v@.take(i as int), v@[i as int]);
                    }
                    w.push(c);
                    i = i + 1;
                }
                assert(v@.take(v@.len() as int) =~= v@);
                proof {
                    lemma_body_view(w, 0, 0);
                    lemma_body_view(*v, 0, 0);
                }
                TYPES::BODY(w)
            },
            TYPES::MAP(v) => {
                let mut w: Vec<String> = Vec::new();
                let mut i: usize = 0;
                while i < v.len()
                    invariant
                        i <= v@.len(),
                        names_view(w@) == names_view(v@.take(i as int)),
                    decreases v@.len() - i,
                {
                    let c = v[i].clone();
                    assert(v@.take(i + 1) =~= v@.take(i as int).push(v@[i as int]));
                    assert(c@ == v@[i as int]@);
                    assert(names_view(w@.push(c)) =~= names_view(w@).push(c@));
                    assert(names_view(v@.take(i as int).push(v@[i as int])) =~= names_view(v@.take(i as int)).push(v@[i as int]@));
                    w.push(c);
                    i = i + 1;
                }
                assert(v@.take(v@.len() as int) =~= v@);
                TYPES::MAP(w)
            },
            TYPES::SIZE(b) => TYPES::SIZE(Box::new(b.copy())),
            TYPES::ADD => TYPES::ADD,
            TYPES::SUB => TYPES::SUB,
            TYPES::MUL => TYPES::MUL,
            TYPES::DIV => TYPES::DIV,
            TYPES::EQ => TYPES::EQ,
            TYPES::NE => TYPES::NE,
            TYPES::LT => TYPES::LT,
            TYPES::GT => TYPES::GT,
            TYPES::NOT => TYPES::NOT,
            TYPES::IF(a, b) => TYPES::IF(Box::new(a.copy()), Box::new(b.copy())),
            TYPES::REPEAT(b) => TYPES::REPEAT(Box::new(b.copy())),
            TYPES::WHILE(b) => TYPES::WHILE(Box::new(b.copy())),
            TYPES::SET(s) => TYPES::SET(s.clone()),
            TYPES::ID(s) => TYPES::ID(s.clone()),
            TYPES::MACRO(s, a, b) => TYPES::MACRO(s.clone(), Box::new(a.copy()), Box::new(b.copy())),
            TYPES::PRINT => TYPES::PRINT,
            TYPES::VAR(s) => TYPES::VAR(s.clone()),
        }
    }
}

impl Token {
    /// A copy of the whole tree of this token.
    pub fn copy(&self) -> (r: Token)
        ensures
            r@ == self@,
            r.start == self.start,
            r.stop == self.stop,
        decreases self,
    {
        assert(decreases_to!(*self => self.token));
        let token = self.token.copy();
        Token { token, start: self.start, stop: self.stop }
    }
}

impl Clone for TYPES {
    fn clone(&self) -> (r: TYPES)
        ensures
            kind_view(r) == kind_view(*self),
    {
        self.copy()
    }
}

impl Clone for Token {
    fn clone(&self) -> (r: Token)
        ensures
            r@ == self@,
            r.start == self.start,
            r.stop == self.stop,
    {
        self.copy()
    }
}

/// The shape of a token of this kind.
pub open spec fn kind_view(k: TYPES) -> Node {
    node_of(Token { token: k, start: 0, stop: 0 })
}

impl View for Token {
    type V = Node;

    open spec fn view(&self) -> Node {
        node_of(*self)
    }
}

/// The shapes of a sequence of tokens.
pub open spec fn tokens_view(v: Seq<Token>) -> Seq<Node> {
    v.map_values(|t: Token| t@)
}

pub proof fn lemma_nodes_of(v: Vec<Token>, n: nat)
    requires
        n <= v.len(),
    ensures
        nodes_of(v, n) == tokens_view(v@.take(n as int)),
    decreases n,
{
    if n > 0 {
        lemma_nodes_of(v, (n - 1) as nat);
        assert(tokens_view(v@.take(n as int)) =~= tokens_view(v@.take(n - 1)).push(v[n - 1]@));
    }
}

/// The number of characters from `p` to the end of the text.
pub open spec fn remaining(t: Seq<char>, p: int) -> nat {
    if p < t.len() {
        (t.len() - p) as nat
    } else {
        0
    }
}

/// Words that cannot be bound with `@`.
pub open spec fn is_keyword(w: Seq<char>) -> bool {
    w == "if"@ || w == "else"@ || w == "repeat"@ || w == "while"@ || w == "macro"@
        || w == "print"@ || is_special(w)
}

/// The names of the two stack-inspecting variables.
pub open spec fn is_special(w: Seq<char>) -> bool {
    w == "STACK"@ || w == "LENGTH"@
}

/// The operator that a single character stands for.
pub open spec fn op_of(c: char) -> Option<Node> {
    if c == '+' {
        Some(Node::Add)
    } else if c == '-' {
        Some(Node::Sub)
    } else if c == '*' {
        Some(Node::Mul)
    } else if c == '/' {
        Some(Node::Div)
    } else if c == '=' {
        Some(Node::Eq)
    } else if c == '<' {
        Some(Node::Lt)
    } else if c == '>' {
        Some(Node::Gt)
    } else if c == '!' {
        Some(Node::Not)
    } else {
        None
    }
}

/// Whether the text at `p` starts with `else`.
pub open spec fn has_else(t: Seq<char>, p: int) -> bool {
    0 <= p && p + 4 <= t.len() && t.subrange(p, p + 4) == "else"@
}

/// The node that starts at the first non-blank character at or after `p`.
/// A result `Ok((n, k))` says that the node ends at `p + 1 + k`, so that each
/// node is seen to consume at least one character.
pub open spec fn parse_node(t: Seq<char>, p: int) -> Result<(Node, nat), Error>
    decreases remaining(t, p), 2nat,
{
    let s = skip_ws(t, p);
    let w = ws_len(t, p);
    if s >= t.len() {
        Err(Error::Eof(s as usize))
    } else {
        let c = t[s];
        if is_digit(c) {
            let k = digit_len(t, s + 1);
            let v = digits_value(t.subrange(s, s + 1 + k));
            if v > isize::MAX {
                Err(Error::Literal(s as usize))
            } else {
                Ok((Node::Int(v), w + k))
            }
        } else if c == '(' {
            match parse_items(t, s + 1) {
                Ok((ns, k)) => Ok((Node::Group(ns), w + 1 + k)),
                Err(x) => Err(x),
            }
        } else if c == '[' {
            match parse_node(t, s + 1) {
                Ok((n, k)) => {
                    let e = s + 2 + k;
                    if e < t.len() && t[e] == ']' {
                        Ok((Node::Size(Box::new(n)), w + 2 + k))
                    } else {
                        Err(Error::Syntax(e as usize))
                    }
                },
                Err(x) => Err(x),
            }
        } else if c == '{' {
            match parse_names(t, s + 1) {
                Ok((ns, k)) => Ok((Node::Pattern(ns), w + 1 + k)),
                Err(x) => Err(x),
            }
        } else if c == '@' {
            if s + 1 < t.len() && is_letter(t[s + 1]) {
                let k = word_len(t, s + 1);
                let name = t.subrange(s + 1, s + 1 + k);
                if is_keyword(name) {
                    Err(Error::Syntax((s + 1) as usize))
                } else {
                    Ok((Node::Bind(name), w + k))
                }
            } else {
                Err(Error::Syntax((s + 1) as usize))
            }
        } else if op_of(c) is Some {
            Ok((op_of(c)->0, w))
        } else if is_letter(c) {
            parse_word_node(t, p)
        } else {
            Err(Error::Char(s as usize, t[s]))
        }
    }
}

/// The end of the word that starts at the first non-blank position at or
/// after `p`.
pub open spec fn word_end(t: Seq<char>, p: int) -> int {
    skip_ws(t, p) + 1 + word_len(t, skip_ws(t, p) + 1)
}

/// `parse_node` where the first non-blank character is a letter.
pub open spec fn parse_word_node(t: Seq<char>, p: int) -> Result<(Node, nat), Error>
    decreases remaining(t, p), 1nat,
{
    if skip_ws(t, p) >= t.len() {
        Err(Error::Eof(skip_ws(t, p) as usize))
    } else {
        let s = skip_ws(t, p);
        let k = word_len(t, s + 1);
        let w = ws_len(t, p);
        let e = word_end(t, p);
        let word = t.subrange(s, e);
        if word == "if"@ {
            parse_cond(t, p)
        } else if word == "repeat"@ {
            match parse_node(t, e) {
                Ok((b, k1)) => Ok((Node::Repeat(Box::new(b)), w + k + 1 + k1)),
                Err(x) => Err(x),
            }
        } else if word == "while"@ {
            match parse_node(t, e) {
                Ok((b, k1)) => Ok((Node::While(Box::new(b)), w + k + 1 + k1)),
                Err(x) => Err(x),
            }
        } else if word == "macro"@ {
            parse_macro(t, p)
        } else if word == "print"@ {
            Ok((Node::Print, w + k))
        } else if is_special(word) {
            Ok((Node::Special(word), w + k))
        } else {
            Ok((Node::Ref(word), w + k))
        }
    }
}

/// A conditional: the node after `if`, then `else` and one more node if the
/// next non-blank text is `else`.
pub open spec fn parse_cond(t: Seq<char>, p: int) -> Result<(Node, nat), Error>
    decreases remaining(t, p), 0nat,
{
    if skip_ws(t, p) >= t.len() {
        Err(Error::Eof(skip_ws(t, p) as usize))
    } else {
        let e = word_end(t, p);
        match parse_node(t, e) {
            Ok((then_n, k1)) => {
                let e1 = e + 1 + k1;
                let s2 = skip_ws(t, e1);
                if has_else(t, s2) {
                    match parse_node(t, s2 + 4) {
                        Ok((else_n, k2)) => Ok(
                            (Node::Cond(Box::new(then_n), Box::new(else_n)), (s2 + 4 - p + k2) as nat),
                        ),
                        Err(x) => Err(x),
                    }
                } else {
                    Ok(
                        (
                            Node::Cond(Box::new(then_n), Box::new(Node::Nothing)),
                            (s2 - p - 1) as nat,
                        ),
                    )
                }
            },
            Err(x) => Err(x),
        }
    }
}

/// A macro definition: an optional `[...]` right after `macro`, a name,
/// then the body.
pub open spec fn parse_macro(t: Seq<char>, p: int) -> Result<(Node, nat), Error>
    decreases remaining(t, p), 0nat,
{
    if skip_ws(t, p) >= t.len() {
        Err(Error::Eof(skip_ws(t, p) as usize))
    } else {
        let e = word_end(t, p);
        let sized = 0 <= e < t.len() && t[e] == '[';
        let size = if sized {
            parse_node(t, e)
        } else {
            Ok((Node::Nothing, 0nat))
        };
        match size {
            Ok((size_n, k1)) => {
                let e1 = if sized {
                    e + 1 + k1
                } else {
                    e
                };
                match parse_node(t, e1) {
                    Ok((Node::Ref(name), k2)) => {
                        let e2 = e1 + 1 + k2;
                        match parse_node(t, e2) {
                            Ok((body, k3)) => Ok(
                                (
                                    Node::Macro(name, Box::new(size_n), Box::new(body)),
                                    (e2 - p + k3) as nat,
                                ),
                            ),
                            Err(x) => Err(x),
                        }
                    },
                    Ok(_) => Err(Error::Syntax(skip_ws(t, e1) as usize)),
                    Err(x) => Err(x),
                }
            },
            Err(x) => Err(x),
        }
    }
}

/// The nodes of a group, from just after its `(` to its `)`; a result
/// `Ok((ns, k))` says that the `)` stands at `p + k`.
pub open spec fn parse_items(t: Seq<char>, p: int) -> Result<(Seq<Node>, nat), Error>
    decreases remaining(t, p), 3nat,
{
    let q = skip_ws(t, p);
    if q >= t.len() {
        Err(Error::Eof(q as usize))
    } else if t[q] == ')' {
        Ok((Seq::empty(), ws_len(t, p)))
    } else {
        match parse_node(t, q) {
            Ok((n, k1)) => match parse_items(t, q + 1 + k1) {
                Ok((ns, k2)) => Ok((seq![n] + ns, ws_len(t, p) + 1 + k1 + k2)),
                Err(x) => Err(x),
            },
            Err(x) => Err(x),
        }
    }
}

/// The names of a mapping pattern, from just after its `{` to its `}`; a
/// result `Ok((ns, k))` says that the `}` stands at `p + k`.
pub open spec fn parse_names(t: Seq<char>, p: int) -> Result<(Seq<Seq<char>>, nat), Error>
    decreases remaining(t, p),
{
    let q = skip_ws(t, p);
    if q >= t.len() {
        Err(Error::Eof(q as usize))
    } else if t[q] == '}' {
        Ok((Seq::empty(), ws_len(t, p)))
    } else if !is_letter(t[q]) {
        Err(Error::Syntax(q as usize))
    } else {
        let k = word_len(t, q + 1);
        match parse_names(t, q + 1 + k) {
            Ok((ns, k2)) => Ok((seq![t.subrange(q, q + 1 + k)] + ns, ws_len(t, p) + 1 + k + k2)),
            Err(x) => Err(x),
        }
    }
}

/// The nodes of a whole text, or its first error.
pub open spec fn parse_all(t: Seq<char>, p: int) -> Result<Seq<Node>, Error>
    decreases remaining(t, p),
{
    let q = skip_ws(t, p);
    if q >= t.len() {
        Ok(Seq::empty())
    } else {
        match parse_node(t, q) {
            Ok((n, k)) => match parse_all(t, q + 1 + k) {
                Ok(ns) => Ok(seq![n] + ns),
                Err(x) => Err(x),
            },
            Err(x) => Err(x),
        }
    }
}

/// `parse_node` with the end given as a position.
pub open spec fn node_at(t: Seq<char>, p: int) -> Result<(Node, int), Error> {
    match parse_node(t, p) {
        Ok((n, k)) => Ok((n, p + 1 + k)),
        Err(x) => Err(x),
    }
}

/// `parse_items` with the end given as the position after the `)`.
pub open spec fn items_at(t: Seq<char>, p: int) -> Result<(Seq<Node>, int), Error> {
    match parse_items(t, p) {
        Ok((ns, k)) => Ok((ns, p + 1 + k)),
        Err(x) => Err(x),
    }
}

/// `parse_names` with the end given as the position after the `}`.
pub open spec fn names_at(t: Seq<char>, p: int) -> Result<(Seq<Seq<char>>, int), Error> {
    match parse_names(t, p) {
        Ok((ns, k)) => Ok((ns, p + 1 + k)),
        Err(x) => Err(x),
    }
}

pub open spec fn prepend<A>(acc: Seq<A>, r: Result<(Seq<A>, int), Error>) -> Result<(Seq<A>, int), Error> {
    match r {
        Ok((ns, e)) => Ok((acc + ns, e)),
        Err(x) => Err(x),
    }
}

pub open spec fn prepend_all(acc: Seq<Node>, r: Result<Seq<Node>, Error>) -> Result<Seq<Node>, Error> {
    match r {
        Ok(ns) => Ok(acc + ns),
        Err(x) => Err(x),
    }
}

proof fn lemma_prepend_step<A>(acc: Seq<A>, n: A, r: Result<(Seq<A>, int), Error>)
    ensures
        prepend(acc, prepend(seq![n], r)) == prepend(acc.push(n), r),
{
    if let Ok((ns, e)) = r {
        assert(acc + (seq![n] + ns) =~= acc.push(n) + ns);
    }
}

proof fn lemma_prepend_all_step(acc: Seq<Node>, n: Node, r: Result<Seq<Node>, Error>)
    ensures
        prepend_all(acc, prepend_all(seq![n], r)) == prepend_all(acc.push(n), r),
{
    if let Ok(ns) = r {
        assert(acc + (seq![n] + ns) =~= acc.push(n) + ns);
    }
}

pub proof fn lemma_tokens_view_push(v: Seq<Token>, t: Token)
    ensures
        tokens_view(v.push(t)) == tokens_view(v).push(t@),
{
    assert(tokens_view(v.push(t)) =~= tokens_view(v).push(t@));
}

pub proof fn lemma_body_view(v: Vec<Token>, start: usize, stop: usize)
    ensures
        (Token { token: TYPES::BODY(v), start, stop })@ == Node::Group(tokens_view(v@)),
{
    lemma_nodes_of(v, v@.len());
    assert(v@.take(v@.len() as int) =~= v@);
}

proof fn lemma_skip_twice(t: Seq<char>, p: int)
    ensures
        skip_ws(t, skip_ws(t, p)) == skip_ws(t, p),
        ws_len(t, skip_ws(t, p)) == 0,
    decreases t.len() - p,
{
    if 0 <= p < t.len() && is_ws(t[p]) {
        lemma_skip_twice(t, p + 1);
    }
}

proof fn lemma_cond_skip(t: Seq<char>, p: int)
    ensures
        ended_at(p, parse_cond(t, p)) == ended_at(skip_ws(t, p), parse_cond(t, skip_ws(t, p))),
{
    lemma_skip_twice(t, p);
}

proof fn lemma_macro_skip(t: Seq<char>, p: int)
    ensures
        ended_at(p, parse_macro(t, p)) == ended_at(skip_ws(t, p), parse_macro(t, skip_ws(t, p))),
{
    lemma_skip_twice(t, p);
}

proof fn lemma_word_skip(t: Seq<char>, p: int)
    ensures
        ended_at(p, parse_word_node(t, p)) == ended_at(
            skip_ws(t, p),
            parse_word_node(t, skip_ws(t, p)),
        ),
{
    lemma_skip_twice(t, p);
    lemma_cond_skip(t, p);
    lemma_macro_skip(t, p);
}

/// Parsing from `p` gives the node and end that parsing from the first
/// non-blank position after it gives.
pub proof fn lemma_node_at_skip(t: Seq<char>, p: int)
    ensures
        node_at(t, p) == node_at(t, skip_ws(t, p)),
{
    lemma_skip_twice(t, p);
    lemma_word_skip(t, p);
}

/// Every token of the tree starts where parsing it from its `start` gives its
/// shape and stops at its `stop`.
pub open spec fn spans_ok(t: Seq<char>, tok: Token) -> bool
    decreases tok, 1nat,
{
    node_at(t, tok.start as int) == Ok::<(Node, int), Error>((tok@, tok.stop as int))
        && children_ok(t, tok)
}

/// `spans_ok` of each token that `tok` holds; an absent `else` or size is the
/// `NONE` marker.
pub open spec fn children_ok(t: Seq<char>, tok: Token) -> bool
    decreases tok, 0nat,
{
    match tok.token {
        TYPES::BODY(v) => forall|i: int| 0 <= i < v.len() ==> spans_ok(t, #[trigger] v@[i]),
        TYPES::SIZE(b) => spans_ok(t, *b),
        TYPES::IF(a, b) => spans_ok(t, *a) && (b.token is NONE || spans_ok(t, *b)),
        TYPES::REPEAT(b) => spans_ok(t, *b),
        TYPES::WHILE(b) => spans_ok(t, *b),
        TYPES::MACRO(_, a, b) => (a.token is NONE || spans_ok(t, *a)) && spans_ok(t, *b),
        _ => true,
    }
}

/// Where the first non-blank character is a letter, the node is a word's.
pub proof fn lemma_word_node(t: Seq<char>, p: int)
    requires
        0 <= skip_ws(t, p) < t.len(),
        is_letter(t[skip_ws(t, p)]),
    ensures
        parse_node(t, p) == parse_word_node(t, p),
{
}

/// Parses the node that starts at the first non-blank character at or after
/// `p`, and returns it with the position where it ends. A keyword's body is
/// parsed by a nested call, so the depth of recursion is the nesting depth of
/// the text.
pub fn parse_token(t: &Vec<char>, p: usize) -> (r: Result<(Token, usize), Error>)
    requires
        p <= t@.len(),
    ensures
        match node_at(t@, p as int) {
            Ok((n, e)) => r matches Ok((tok, e2)) && tok@ == n && e2 == e && e <= t@.len()
                && tok.start == skip_ws(t@, p as int) && tok.stop == e && spans_ok(t@, tok),
            Err(x) => r == Err::<(Token, usize), Error>(x),
        },
    decreases t@.len() - p, 2nat,
{
    proof {
        lemma_node_at_skip(t@, p as int);
    }
    let s = skip_ws_at(t, p);
    if s >= t.len() {
        return Err(Error::Eof(s));
    }
    let c = t[s];
    if is_digit_char(c) {
        let e = digits_end_at(t, s + 1);
        proof {
            lemma_digit_run(t@, s + 1);
        }
        return match digits_to_isize(t, s, e) {
            Some(v) => Ok((Token::new(TYPES::INT(v), s, e), e)),
            None => Err(Error::Literal(s)),
        };
    }
    if c == '(' {
        return match parse_group(t, s + 1) {
            Ok((v, e)) => {
                proof {
                    lemma_body_view(v, s, e);
                }
                Ok((Token::new(TYPES::BODY(v), s, e), e))
            },
            Err(x) => Err(x),
        };
    }
    if c == '[' {
        return match parse_token(t, s + 1) {
            Ok((n, e)) => {
                if e < t.len() && t[e] == ']' {
                    Ok((Token::new(TYPES::SIZE(Box::new(n)), s, e + 1), e + 1))
                } else {
                    Err(Error::Syntax(e))
                }
            },
            Err(x) => Err(x),
        };
    }
    if c == '{' {
        return match parse_names_at(t, s + 1) {
            Ok((v, e)) => Ok((Token::new(TYPES::MAP(v), s, e), e)),
            Err(x) => Err(x),
        };
    }
    if c == '@' {
        if s + 1 < t.len() && is_letter_char(t[s + 1]) {
            let e = word_end_at(t, s + 1);
            if is_keyword_at(t, s + 1, e) {
                return Err(Error::Syntax(s + 1));
            }
            let name = string_of(&t.as_slice()[s + 1..e]);
            return Ok((Token::new(TYPES::SET(name), s, e), e));
        }
        return Err(Error::Syntax(s + 1));
    }
    let op = if c == '+' {
        TYPES::ADD
    } else if c == '-' {
        TYPES::SUB
    } else if c == '*' {
        TYPES::MUL
    } else if c == '/' {
        TYPES::DIV
    } else if c == '=' {
        TYPES::EQ
    } else if c == '<' {
        TYPES::LT
    } else if c == '>' {
        TYPES::GT
    } else if c == '!' {
        TYPES::NOT
    } else {
        TYPES::NONE
    };
    match op {
        TYPES::NONE => {},
        op => return Ok((Token::new(op, s, s + 1), s + 1)),
    }
    if is_letter_char(c) {
        return parse_word(t, p, s);
    }
    Err(Error::Char(s, c))
}

/// Whether the characters from `from` to `to` form a word that `@` cannot bind.
fn is_keyword_at(t: &Vec<char>, from: usize, to: usize) -> (r: bool)
    requires
        from <= to <= t@.len(),
    ensures
        r == is_keyword(t@.subrange(from as int, to as int)),
{
    spells(t, from, to, "if") || spells(t, from, to, "else") || spells(t, from, to, "repeat")
        || spells(t, from, to, "while") || spells(t, from, to, "macro") || spells(
        t,
        from,
        to,
        "print",
    ) || spells(t, from, to, "STACK") || spells(t, from, to, "LENGTH")
}

/// The position-based form of a parse result.
pub open spec fn ended_at<A>(p: int, r: Result<(A, nat), Error>) -> Result<(A, int), Error> {
    match r {
        Ok((n, k)) => Ok((n, p + 1 + k)),
        Err(x) => Err(x),
    }
}

/// The node of a word that starts at `s`, the first non-blank position at
/// or after `p`: a keyword with the nodes it consumes, or a name.
fn parse_word(t: &Vec<char>, p: usize, s: usize) -> (r: Result<(Token, usize), Error>)
    requires
        p <= s < t@.len(),
        s == skip_ws(t@, p as int),
        is_letter(t@[s as int]),
    ensures
        match ended_at(p as int, parse_word_node(t@, p as int)) {
            Ok((n, e)) => r matches Ok((tok, e2)) && tok@ == n && e2 == e && e <= t@.len()
                && tok.start == s && tok.stop == e && spans_ok(t@, tok),
            Err(x) => r == Err::<(Token, usize), Error>(x),
        },
    decreases t@.len() - p, 1nat,
{
    proof {
        lemma_node_at_skip(t@, p as int);
        lemma_word_node(t@, p as int);
    }
    let e = word_end_at(t, if s < t.len() { s + 1 } else { s });
    if spells(t, s, e, "if") {
        return parse_cond_at(t, p, s, e);
    }
    if spells(t, s, e, "repeat") {
        return match parse_token(t, e) {
            Ok((b, e1)) => Ok((Token::new(TYPES::REPEAT(Box::new(b)), s, e1), e1)),
            Err(x) => Err(x),
        };
    }
    if spells(t, s, e, "while") {
        return match parse_token(t, e) {
            Ok((b, e1)) => Ok((Token::new(TYPES::WHILE(Box::new(b)), s, e1), e1)),
            Err(x) => Err(x),
        };
    }
    if spells(t, s, e, "macro") {
        return parse_macro_at(t, p, s, e);
    }
    if spells(t, s, e, "print") {
        return Ok((Token::new(TYPES::PRINT, s, e), e));
    }
    let word = string_of(&t.as_slice()[s..e]);
    if spells(t, s, e, "STACK") || spells(t, s, e, "LENGTH") {
        return Ok((Token::new(TYPES::VAR(word), s, e), e));
    }
    Ok((Token::new(TYPES::ID(word), s, e), e))
}

/// A conditional whose `if` spans from `s` to `e`.
fn parse_cond_at(t: &Vec<char>, p: usize, s: usize, e: usize) -> (r: Result<(Token, usize), Error>)
    requires
        p <= s < e <= t@.len(),
        s == skip_ws(t@, p as int),
        e == word_end(t@, p as int),
    ensures
        match ended_at(p as int, parse_cond(t@, p as int)) {
            Ok((n, e)) => r matches Ok((tok, e2)) && tok@ == n && e2 == e && e <= t@.len()
                && tok.start == s && tok.stop == e && children_ok(t@, tok),
            Err(x) => r == Err::<(Token, usize), Error>(x),
        },
    decreases t@.len() - p, 0nat,
{
    let (then_t, e1) = match parse_token(t, e) {
        Ok(v) => v,
        Err(x) => return Err(x),
    };
    let s2 = skip_ws_at(t, e1);
    if s2 < t.len() && t.len() - s2 >= 4 && spells(t, s2, s2 + 4, "else") {
        let (else_t, e2) = match parse_token(t, s2 + 4) {
            Ok(v) => v,
            Err(x) => return Err(x),
        };
        return Ok((Token::new(TYPES::IF(Box::new(then_t), Box::new(else_t)), s, e2), e2));
    }
    Ok((Token::new(TYPES::IF(Box::new(then_t), Box::new(Token::none())), s, s2), s2))
}

/// A macro definition whose `macro` spans from `s` to `e`.
fn parse_macro_at(t: &Vec<char>, p: usize, s: usize, e: usize) -> (r: Result<(Token, usize), Error>)
    requires
        p <= s < e <= t@.len(),
        s == skip_ws(t@, p as int),
        e == word_end(t@, p as int),
    ensures
        match ended_at(p as int, parse_macro(t@, p as int)) {
            Ok((n, e)) => r matches Ok((tok, e2)) && tok@ == n && e2 == e && e <= t@.len()
                && tok.start == s && tok.stop == e && children_ok(t@, tok),
            Err(x) => r == Err::<(Token, usize), Error>(x),
        },
    decreases t@.len() - p, 0nat,
{
    let (size, e1) = if e < t.len() && t[e] == '[' {
        match parse_token(t, e) {
            Ok(v) => v,
            Err(x) => return Err(x),
        }
    } else {
        (Token::none(), e)
    };
    let (name_t, e2) = match parse_token(t, e1) {
        Ok(v) => v,
        Err(x) => return Err(x),
    };
    let name = match name_t.token {
        TYPES::ID(name) => name,
        _ => return Err(Error::Syntax(skip_ws_at(t, e1))),
    };
    let (body, e3) = match parse_token(t, e2) {
        Ok(v) => v,
        Err(x) => return Err(x),
    };
    Ok((Token::new(TYPES::MACRO(name, Box::new(size), Box::new(body)), s, e3), e3))
}

/// The tokens of a group from just after its `(`, and the position after
/// its `)`.
fn parse_group(t: &Vec<char>, p: usize) -> (r: Result<(Vec<Token>, usize), Error>)
    requires
        p <= t@.len(),
    ensures
        match items_at(t@, p as int) {
            Ok((ns, e)) => r matches Ok((v, e2)) && tokens_view(v@) == ns && e2 == e
                && e <= t@.len() && forall|i: int| 0 <= i < v@.len() ==> spans_ok(t@, #[trigger] v@[i]),
            Err(x) => r == Err::<(Vec<Token>, usize), Error>(x),
        },
    decreases t@.len() - p, 3nat,
{
    let mut v: Vec<Token> = Vec::new();
    let mut cur: usize = p;
    loop
        invariant
            p <= cur <= t@.len(),
            items_at(t@, p as int) == prepend(tokens_view(v@), items_at(t@, cur as int)),
            forall|i: int| 0 <= i < v@.len() ==> spans_ok(t@, #[trigger] v@[i]),
        decreases t@.len() - cur,
    {
        let q = skip_ws_at(t, cur);
        if q >= t.len() {
            return Err(Error::Eof(q));
        }
        if t[q] == ')' {
            assert(tokens_view(v@) + Seq::empty() =~= tokens_view(v@));
            return Ok((v, q + 1));
        }
        match parse_token(t, q) {
            Ok((tok, e)) => {
                proof {
                    lemma_prepend_step(tokens_view(v@), tok@, items_at(t@, e as int));
                    lemma_tokens_view_push(v@, tok);
                }
                v.push(tok);
                cur = e;
            },
            Err(x) => return Err(x),
        }
    }
}

/// The names of a mapping pattern from just after its `{`, and the position
/// after its `}`.
fn parse_names_at(t: &Vec<char>, p: usize) -> (r: Result<(Vec<String>, usize), Error>)
    requires
        p <= t@.len(),
    ensures
        match names_at(t@, p as int) {
            Ok((ns, e)) => r matches Ok((v, e2)) && names_view(v@) == ns && e2 == e
                && e <= t@.len(),
            Err(x) => r == Err::<(Vec<String>, usize), Error>(x),
        },
{
    let mut v: Vec<String> = Vec::new();
    let mut cur: usize = p;
    loop
        invariant
            p <= cur <= t@.len(),
            names_at(t@, p as int) == prepend(names_view(v@), names_at(t@, cur as int)),
        decreases t@.len() - cur,
    {
        let q = skip_ws_at(t, cur);
        if q >= t.len() {
            return Err(Error::Eof(q));
        }
        if t[q] == '}' {
            assert(names_view(v@) + Seq::empty() =~= names_view(v@));
            return Ok((v, q + 1));
        }
        if !is_letter_char(t[q]) {
            return Err(Error::Syntax(q));
        }
        let e = word_end_at(t, q + 1);
        let name = string_of(&t.as_slice()[q..e]);
        proof {
            lemma_prepend_step(names_view(v@), name@, names_at(t@, e as int));
            assert(names_view(v@.push(name)) =~= names_view(v@).push(name@));
        }
        v.push(name);
        cur = e;
    }
}

/// A scanner over one source text that collects the nodes it parses.
#[derive(Debug)]
pub struct Lexer {
    tokens: Vec<Token>,
    file: File,
    chars: Vec<char>,
    idx: usize,
}

/// The nodes that parse one after another from `p` before the first error
/// or the end of the text.
pub open spec fn parse_prefix(t: Seq<char>, p: int) -> Seq<Node>
    decreases remaining(t, p),
{
    let q = skip_ws(t, p);
    if q >= t.len() {
        Seq::empty()
    } else {
        match parse_node(t, q) {
            Ok((n, k)) => seq![n] + parse_prefix(t, q + 1 + k),
            Err(_) => Seq::empty(),
        }
    }
}

impl Lexer {
    /// The characters being scanned.
    pub closed spec fn text(&self) -> Seq<char> {
        self.chars@
    }

    /// The scan position; a position past the end reads as the end.
    pub closed spec fn pos(&self) -> int {
        self.idx as int
    }

    /// The tokens collected so far.
    pub closed spec fn collected(&self) -> Seq<Token> {
        self.tokens@
    }

    /// The shapes of the tokens collected so far.
    pub open spec fn parsed(&self) -> Seq<Node> {
        tokens_view(self.collected())
    }

    pub fn new(file: File) -> (r: Self)
        ensures
            r.text() == file.text@,
            r.pos() == 0,
            r.collected() == Seq::<Token>::empty(),
    {
        let chars = chars_of(file.text.as_str());
        Self { tokens: Vec::new(), file, chars, idx: 0 }
    }

    /// Moves one character on.
    pub fn advance(&mut self)
        requires
            old(self).pos() < usize::MAX,
        ensures
            final(self).text() == old(self).text(),
            final(self).collected() == old(self).collected(),
            final(self).pos() == old(self).pos() + 1,
    {
        self.idx = self.idx + 1;
    }

    /// The character at the scan position, or `None` at or past the end.
    pub fn char(&self) -> (r: Option<char>)
        ensures
            self.pos() < self.text().len() ==> r == Some(self.text()[self.pos()]),
            self.pos() >= self.text().len() ==> r is None,
    {
        if self.idx < self.chars.len() {
            Some(self.chars[self.idx])
        } else {
            None
        }
    }

    /// The text from `start` to `stop`, with `start` cut back to the last
    /// character and `stop` to the end of the text; empty on an empty text or
    /// where `start` then comes after `stop`.
    pub fn range(&self, start: usize, stop: usize) -> (r: String)
        ensures
            ({
                let n = self.text().len();
                let a = if start < n { start as int } else { n - 1 };
                let b = if stop <= n { stop as int } else { n as int };
                r@ == if n > 0 && a <= b { self.text().subrange(a, b) } else { Seq::empty() }
            }),
    {
        let n = self.chars.len();
        if n == 0 {
            return string_of(&self.chars.as_slice()[0..0]);
        }
        let a = if start < n { start } else { n - 1 };
        let b = if stop <= n { stop } else { n };
        if a <= b {
            string_of(&self.chars.as_slice()[a..b])
        } else {
            string_of(&self.chars.as_slice()[0..0])
        }
    }

    /// The identifier at the scan position: a letter followed by letters,
    /// digits and underscores.
    pub fn word(&mut self) -> (r: Result<String, Error>)
        ensures
            final(self).text() == old(self).text(),
            final(self).collected() == old(self).collected(),
            ({
                let t = old(self).text();
                let p = old(self).pos();
                if p < t.len() && is_letter(t[p]) {
                    let e = p + 1 + word_len(t, p + 1);
                    r matches Ok(w) && w@ == t.subrange(p, e) && final(self).pos() == e
                } else {
                    r == Err::<String, Error>(Error::Syntax(p as usize))
                        && final(self).pos() == p
                }
            }),
    {
        let p = self.idx;
        if p < self.chars.len() && is_letter_char(self.chars[p]) {
            let e = word_end_at(&self.chars, p + 1);
            self.idx = e;
            Ok(string_of(&self.chars.as_slice()[p..e]))
        } else {
            Err(Error::Syntax(p))
        }
    }

    /// Parses the next node: it starts at the first non-blank character and
    /// stops where the scan position moves to. On failure the scan position
    /// moves to the position the error names.
    pub fn next(&mut self) -> (r: Result<Token, Error>)
        ensures
            final(self).text() == old(self).text(),
            final(self).collected() == old(self).collected(),
            match node_at(old(self).text(), old(self).pos()) {
                Ok((n, e)) => r matches Ok(tok) && tok@ == n && final(self).pos() == e
                    && tok.start == skip_ws(old(self).text(), old(self).pos()) && tok.stop == e
                    && spans_ok(old(self).text(), tok),
                Err(x) => r == Err::<Token, Error>(x) && final(self).pos() == if error_position(
                    x,
                    old(self).pos(),
                ) <= old(self).text().len() {
                    error_position(x, old(self).pos())
                } else {
                    old(self).pos()
                },
            },
    {
        if self.idx > self.chars.len() {
            assert(ws_len(self.chars@, self.idx as int) == 0);
            return Err(Error::Eof(self.idx));
        }
        match parse_token(&self.chars, self.idx) {
            Ok((tok, e)) => {
                self.idx = e;
                Ok(tok)
            },
            Err(x) => {
                let at = match x {
                    Error::Char(q, _) => q,
                    Error::Syntax(q) => q,
                    Error::Eof(q) => q,
                    Error::Literal(q) => q,
                    _ => self.idx,
                };
                if at <= self.chars.len() {
                    self.idx = at;
                }
                Err(x)
            },
        }
    }

    /// Parses the rest of the text, adding its tokens to those collected: all
    /// of them, or on an error those before it.
    pub fn lex(&mut self) -> (r: Result<(), Error>)
        ensures
            final(self).text() == old(self).text(),
            final(self).collected().subrange(0, old(self).collected().len() as int)
                == old(self).collected(),
            final(self).collected().len() >= old(self).collected().len(),
            final(self).parsed() == old(self).parsed() + parse_prefix(old(self).text(), old(self).pos()),
            forall|i: int|
                old(self).collected().len() <= i < final(self).collected().len() ==> spans_ok(
                    old(self).text(),
                    #[trigger] final(self).collected()[i],
                ),
            match parse_all(old(self).text(), old(self).pos()) {
                Ok(ns) => r is Ok && final(self).parsed() == old(self).parsed() + ns,
                Err(x) => r == Err::<(), Error>(x),
            },
    {
        let ghost t = self.chars@;
        let ghost p0 = self.idx as int;
        let ghost before = self.tokens@;
        if self.idx > self.chars.len() {
            assert(ws_len(t, p0) == 0);
            assert(self.parsed() + Seq::empty() =~= self.parsed());
            assert(self.tokens@.subrange(0, before.len() as int) =~= before);
            return Ok(());
        }
        loop
            invariant
                self.idx <= self.chars@.len(),
                self.chars@ == t,
                t == old(self).text(),
                p0 == old(self).pos(),
                before == old(self).collected(),
                before.len() <= self.tokens@.len(),
                self.tokens@.subrange(0, before.len() as int) == before,
                parse_all(t, p0) == prepend_all(
                    tokens_view(self.tokens@.subrange(before.len() as int, self.tokens@.len() as int)),
                    parse_all(t, self.idx as int),
                ),
                parse_prefix(t, p0) == tokens_view(
                    self.tokens@.subrange(before.len() as int, self.tokens@.len() as int),
                ) + parse_prefix(t, self.idx as int),
                forall|i: int|
                    before.len() <= i < self.tokens@.len() ==> spans_ok(t, #[trigger] self.tokens@[i]),
            decreases self.chars@.len() - self.idx,
        {
            let ghost added = self.tokens@.subrange(before.len() as int, self.tokens@.len() as int);
            proof {
                assert(tokens_view(before + added) =~= tokens_view(before) + tokens_view(added));
                assert(before + added =~= self.tokens@);
            }
            let q = skip_ws_at(&self.chars, self.idx);
            if q >= self.chars.len() {
                self.idx = q;
                proof {
                    assert(tokens_view(added) + Seq::empty() =~= tokens_view(added));
                }
                return Ok(());
            }
            match parse_token(&self.chars, q) {
                Ok((tok, e)) => {
                    proof {
                        lemma_prepend_all_step(tokens_view(added), tok@, parse_all(t, e as int));
                        lemma_tokens_view_push(added, tok);
                        assert(tokens_view(added) + (seq![tok@] + parse_prefix(t, e as int))
                            =~= tokens_view(added.push(tok)) + parse_prefix(t, e as int));
                    }
                    self.tokens.push(tok);
                    self.idx = e;
                    assert(self.tokens@.subrange(before.len() as int, self.tokens@.len() as int)
                        =~= added.push(tok));
                    assert(self.tokens@.subrange(0, before.len() as int) =~= before);
                },
                Err(x) => {
                    proof {
                        assert(tokens_view(added) + Seq::empty() =~= tokens_view(added));
                    }
                    return Err(x);
                },
            }
        }
    }
}

/// Parses a whole source text into its nodes.
pub fn lex(name: &String, text: String) -> (r: Result<Vec<Token>, Error>)
    ensures
        match parse_all(text@, 0) {
            Ok(ns) => r matches Ok(v) && tokens_view(v@) == ns && forall|i: int|
                0 <= i < v@.len() ==> spans_ok(text@, #[trigger] v@[i]),
            Err(x) => r == Err::<Vec<Token>, Error>(x),
        },
{
    let ghost t = text@;
    let mut lexer = Lexer::new(File { name: name.clone(), text });
    match lexer.lex() {
        Ok(()) => {
            assert(Seq::<Node>::empty() + lexer.parsed() =~= lexer.parsed());
            assert(lexer.tokens@ =~= lexer.collected());
            Ok(lexer.tokens)
        },
        Err(x) => Err(x),
    }
}

} // verus!
