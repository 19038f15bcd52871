use vstd::prelude::*;

verus! {

pub open spec fn is_ws(c: char) -> bool {
    c == ' ' || c == '\t' || c == '\n'
}

pub open spec fn is_digit(c: char) -> bool {
    '0' <= c && c <= '9'
}

pub open spec fn is_letter(c: char) -> bool {
    ('a' <= c && c <= 'z') || ('A' <= c && c <= 'Z') || c == '_'
}

pub open spec fn is_word_char(c: char) -> bool {
    is_letter(c) || is_digit(c)
}

/// The number of whitespace characters from `p` on.
pub open spec fn ws_len(t: Seq<char>, p: int) -> nat
    decreases t.len() - p,
{
    if 0 <= p < t.len() && is_ws(t[p]) {
        1 + ws_len(t, p + 1)
    } else {
        0
    }
}

/// The first position at or after `p` that holds no whitespace.
pub open spec fn skip_ws(t: Seq<char>, p: int) -> int {
    p + ws_len(t, p)
}

/// The number of digits from `p` on.
pub open spec fn digit_len(t: Seq<char>, p: int) -> nat
    decreases t.len() - p,
{
    if 0 <= p < t.len() && is_digit(t[p]) {
        1 + digit_len(t, p + 1)
    } else {
        0
    }
}

/// The number of letters, digits and underscores from `p` on.
pub open spec fn word_len(t: Seq<char>, p: int) -> nat
    decreases t.len() - p,
{
    if 0 <= p < t.len() && is_word_char(t[p]) {
        1 + word_len(t, p + 1)
    } else {
        0
    }
}

pub open spec fn digit_value(c: char) -> int {
    c as int - '0' as int
}

/// The value of a run of decimal digits.
pub open spec fn digits_value(s: Seq<char>) -> int
    decreases s.len(),
{
    if s.len() == 0 {
        0
    } else {
        digits_value(s.drop_last()) * 10 + digit_value(s.last())
    }
}

pub open spec fn digit_char(d: nat) -> char {
    ((d + 48) as u8) as char
}

/// The decimal digits of a natural number, without leading zeros.
pub open spec fn digits(n: nat) -> Seq<char>
    decreases n,
{
    if n < 10 {
        seq![digit_char(n)]
    } else {
        digits(n / 10).push(digit_char(n % 10))
    }
}

/// The decimal text of an integer, with a leading `-` when negative.
pub open spec fn decimal(n: int) -> Seq<char> {
    if n < 0 {
        seq!['-'] + digits((-n) as nat)
    } else {
        digits(n as nat)
    }
}

/// Relies on `str::chars` and `collect`: the characters of `s`, in order.
#[verifier::external_body]
pub(crate) fn chars_of(s: &str) -> (r: Vec<char>)
    ensures
        r@ == s@,
{
    s.chars().collect()
}

/// Relies on `collect` into a `String`: the string of the characters of `cs`.
#[verifier::external_body]
pub(crate) fn string_of(cs: &[char]) -> (r: String)
    ensures
        r@ == cs@,
{
    cs.iter().collect()
}

pub fn is_ws_char(c: char) -> (r: bool)
    ensures
        r == is_ws(c),
{
    c == ' ' || c == '\t' || c == '\n'
}

pub fn is_digit_char(c: char) -> (r: bool)
    ensures
        r == is_digit(c),
{
    '0' <= c && c <= '9'
}

pub fn is_letter_char(c: char) -> (r: bool)
    ensures
        r == is_letter(c),
{
    ('a' <= c && c <= 'z') || ('A' <= c && c <= 'Z') || c == '_'
}

/// The first position at or after `p` that holds no whitespace.
pub fn skip_ws_at(t: &Vec<char>, p: usize) -> (r: usize)
    requires
        p <= t@.len(),
    ensures
        r == skip_ws(t@, p as int),
        p <= r <= t@.len(),
{
    let mut i: usize = p;
    while i < t.len() && is_ws_char(t[i])
        invariant
            p <= i <= t@.len(),
            skip_ws(t@, p as int) == skip_ws(t@, i as int),
        decreases t@.len() - i,
    {
        i = i + 1;
    }
    i
}

/// The end of the run of digits that starts at `p`.
pub fn digits_end_at(t: &Vec<char>, p: usize) -> (r: usize)
    requires
        p <= t@.len(),
    ensures
        r == p + digit_len(t@, p as int),
        r <= t@.len(),
{
    let mut i: usize = p;
    while i < t.len() && is_digit_char(t[i])
        invariant
            p <= i <= t@.len(),
            p + digit_len(t@, p as int) == i + digit_len(t@, i as int),
        decreases t@.len() - i,
    {
        i = i + 1;
    }
    i
}

/// The end of the word that starts at `p`.
pub fn word_end_at(t: &Vec<char>, p: usize) -> (r: usize)
    requires
        p <= t@.len(),
    ensures
        r == p + word_len(t@, p as int),
        r <= t@.len(),
{
    let mut i: usize = p;
    while i < t.len() && (is_letter_char(t[i]) || is_digit_char(t[i]))
        invariant
            p <= i <= t@.len(),
            p + word_len(t@, p as int) == i + word_len(t@, i as int),
        decreases t@.len() - i,
    {
        i = i + 1;
    }
    i
}

/// Whether the characters of `t` from `from` to `to` spell `w`.
pub fn spells(t: &Vec<char>, from: usize, to: usize, w: &str) -> (r: bool)
    requires
        from <= to <= t@.len(),
    ensures
        r == (t@.subrange(from as int, to as int) == w@),
{
    let n = w.unicode_len();
    if to - from != n {
        return false;
    }
    let mut i: usize = 0;
    while i < n
        invariant
            n == w@.len(),
            to - from == n,
            from <= to <= t@.len(),
            i <= n,
            forall|j: int| 0 <= j < i ==> t@[from + j] == w@[j],
        decreases n - i,
    {
        if t[from + i] != w.get_char(i) {
            assert(t@.subrange(from as int, to as int)[i as int] != w@[i as int]);
            return false;
        }
        i = i + 1;
    }
    assert(t@.subrange(from as int, to as int) =~= w@);
    true
}

/// Every character of a run of digits is a digit.
pub proof fn lemma_digit_run(t: Seq<char>, p: int)
    ensures
        forall|j: int| p <= j < p + digit_len(t, p) ==> is_digit(#[trigger] t[j]),
    decreases t.len() - p,
{
    if 0 <= p < t.len() && is_digit(t[p]) {
        lemma_digit_run(t, p + 1);
    }
}

/// Whether two strings hold the same characters.
pub fn same_text(a: &str, b: &str) -> (r: bool)
    ensures
        r == (a@ == b@),
{
    let n = a.unicode_len();
    if n != b.unicode_len() {
        return false;
    }
    let mut i: usize = 0;
    while i < n
        invariant
            n == a@.len(),
            n == b@.len(),
            i <= n,
            forall|j: int| 0 <= j < i ==> a@[j] == b@[j],
        decreases n - i,
    {
        if a.get_char(i) != b.get_char(i) {
            return false;
        }
        i = i + 1;
    }
    assert(a@ =~= b@);
    true
}

/// Appends the characters of `s` to `out`.
pub fn push_text(out: &mut Vec<char>, s: &str)
    ensures
        final(out)@ == old(out)@ + s@,
{
    let n = s.unicode_len();
    let mut i: usize = 0;
    while i < n
        invariant
            n == s@.len(),
            i <= n,
            out@ == old(out)@ + s@.take(i as int),
        decreases n - i,
    {
        out.push(s.get_char(i));
        assert(s@.take(i + 1) =~= s@.take(i as int).push(s@[i as int]));
        i = i + 1;
    }
    assert(s@.take(n as int) =~= s@);
}

pub proof fn lemma_digits_value_grows(s: Seq<char>, n: int)
    requires
        0 <= n <= s.len(),
        forall|j: int| 0 <= j < s.len() ==> is_digit(#[trigger] s[j]),
    ensures
        digits_value(s.take(n)) <= digits_value(s),
    decreases s.len() - n,
{
    if n < s.len() {
        lemma_digits_value_grows(s, n + 1);
        assert(s.take(n + 1).drop_last() =~= s.take(n));
        assert(digits_value(s.take(n)) >= 0) by {
            lemma_digits_value_nonneg(s.take(n));
        }
    } else {
        assert(s.take(n) =~= s);
    }
}

pub proof fn lemma_digits_value_nonneg(s: Seq<char>)
    requires
        forall|j: int| 0 <= j < s.len() ==> is_digit(#[trigger] s[j]),
    ensures
        digits_value(s) >= 0,
    decreases s.len(),
{
    if s.len() > 0 {
        lemma_digits_value_nonneg(s.drop_last());
    }
}

/// The value of the run of digits from `from` to `to`, or `None` when it
/// does not fit an `isize`.
pub fn digits_to_isize(t: &Vec<char>, from: usize, to: usize) -> (r: Option<isize>)
    requires
        from <= to <= t@.len(),
        forall|j: int| from <= j < to ==> is_digit(#[trigger] t@[j]),
    ensures
        r is None <==> digits_value(t@.subrange(from as int, to as int)) > isize::MAX,
        r is Some ==> r->0 == digits_value(t@.subrange(from as int, to as int)),
{
    let ghost s = t@.subrange(from as int, to as int);
    let mut v: isize = 0;
    let mut i: usize = from;
    while i < to
        invariant
            from <= i <= to <= t@.len(),
            s == t@.subrange(from as int, to as int),
            forall|j: int| from <= j < to ==> is_digit(#[trigger] t@[j]),
            v == digits_value(s.take(i - from)),
            0 <= v,
        decreases to - i,
    {
        let d = (t[i] as u32 - '0' as u32) as isize;
        assert(s.take(i + 1 - from).drop_last() =~= s.take(i - from));
        assert(s.take(i + 1 - from).last() == t@[i as int]);
        if v > (isize::MAX - d) / 10 {
            proof {
                lemma_digits_value_grows(s, i + 1 - from);
            }
            return None;
        }
        v = v * 10 + d;
        i = i + 1;
    }
    assert(s.take(to - from) =~= s);
    Some(v)
}

/// The decimal text of `n`, as `decimal` gives it.
pub fn decimal_chars(n: isize) -> (r: Vec<char>)
    ensures
        r@ == decimal(n as int),
{
    let mag: usize = if n < 0 { ((-(n + 1)) as usize) + 1 } else { n as usize };
    let mut m: usize = mag;
    let mut acc: Vec<char> = Vec::new();
    while m >= 10
        invariant
            digits(mag as nat) == digits(m as nat) + acc@,
        decreases m,
    {
        let c = ((m % 10) as u8 + 48u8) as char;
        assert(c == digit_char((m % 10) as nat));
        let ghost before = acc@;
        acc.insert(0, c);
        assert(digits(m as nat) + before =~= digits((m / 10) as nat) + acc@);
        m = m / 10;
    }
    let ghost before = acc@;
    acc.insert(0, ((m as u8) + 48u8) as char);
    assert(acc@ =~= digits(m as nat) + before);
    if n < 0 {
        let ghost before = acc@;
        acc.insert(0, '-');
        assert(acc@ =~= seq!['-'] + before);
    }
    acc
}

} // verus!
