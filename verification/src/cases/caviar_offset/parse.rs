use vstd::prelude::*;
use crate::api::Id;
use crate::cases::caviar_offset::analysis::CaviarAnalysis;
use crate::cases::caviar_offset::{CaviarLang, OffsetId};
use crate::ematch::Pattern;
use crate::offset::Offset;
use crate::symbol::Symbol;

verus! {

/// Whether `c` is a decimal digit.
pub open spec fn is_digit(c: char) -> bool {
    '0' <= c <= '9'
}

/// Whether every character of `t` is a decimal digit.
pub open spec fn all_digits(t: Seq<char>) -> bool
    decreases t.len(),
{
    t.len() == 0 || (is_digit(t.last()) && all_digits(t.drop_last()))
}

/// The number that the decimal digits `t` stand for.
pub open spec fn digits_value(t: Seq<char>) -> int
    decreases t.len(),
{
    if t.len() == 0 {
        0
    } else {
        digits_value(t.drop_last()) * 10 + (t.last() as int - '0' as int)
    }
}

/// What parsing `t` as an `i64` gives: an optional sign, then one or more
/// decimal digits, whose value must lie in the range of `i64`.
pub open spec fn parse_i64(t: Seq<char>) -> Option<i64> {
    let signed = t.len() > 0 && (t[0] == '-' || t[0] == '+');
    let body = if signed {
        t.drop_first()
    } else {
        t
    };
    let v = if t.len() > 0 && t[0] == '-' {
        -digits_value(body)
    } else {
        digits_value(body)
    };
    if body.len() == 0 || !all_digits(body) {
        None
    } else if i64::MIN <= v <= i64::MAX {
        Some(v as i64)
    } else {
        None
    }
}

proof fn lemma_all_digits_index(t: Seq<char>, k: int)
    requires
        all_digits(t),
        0 <= k < t.len(),
    ensures
        is_digit(t[k]),
    decreases t.len(),
{
    if k < t.len() - 1 {
        lemma_all_digits_index(t.drop_last(), k);
    }
}

proof fn lemma_digits_value_grows(t: Seq<char>, k: int)
    requires
        all_digits(t),
        0 <= k <= t.len(),
    ensures
        digits_value(t.take(k)) <= digits_value(t),
        0 <= digits_value(t.take(k)),
    decreases t.len(),
{
    if t.len() > 0 {
        if k < t.len() {
            lemma_digits_value_grows(t.drop_last(), k);
            assert(t.drop_last().take(k) == t.take(k));
            lemma_digits_value_grows(t.drop_last(), t.len() - 1);
            assert(t.drop_last().take(t.len() - 1) == t.drop_last());
        } else {
            assert(t.take(k) == t);
            lemma_digits_value_grows(t.drop_last(), t.len() - 1);
            assert(t.drop_last().take(t.len() - 1) == t.drop_last());
        }
    }
}

/// Parses `t` as an `i64`, as `str::parse` does.
#[verifier::loop_isolation(false)]
pub fn parse_int(t: &Vec<char>) -> (res: Option<i64>)
    ensures
        res == parse_i64(t@),
{
    let n = t.len();
    if n == 0 {
        return None;
    }
    let neg = t[0] == '-';
    let start: usize = if t[0] == '-' || t[0] == '+' {
        1
    } else {
        0
    };
    let ghost body = if start == 1 {
        t@.drop_first()
    } else {
        t@
    };
    proof {
        assert(body == t@.subrange(start as int, n as int));
    }
    if start == n {
        return None;
    }
    let bound: i128 = 0x8000_0000_0000_0000;
    let mut acc: i128 = 0;
    let mut k: usize = start;
    while k < n
        invariant
            start <= k <= n,
            n == t@.len(),
            body == t@.subrange(start as int, n as int),
            all_digits(body.take(k - start)),
            acc == digits_value(body.take(k - start)),
            0 <= acc <= bound,
            bound == 0x8000_0000_0000_0000,
        decreases n - k,
    {
        let c = t[k];
        let ghost pre = body.take(k - start);
        let ghost next = body.take(k - start + 1);
        proof {
            assert(next.drop_last() == pre);
            assert(next.last() == c);
        }
        proof {
            assert(body[k - start] == c);
        }
        if !('0' <= c && c <= '9') {
            proof {
                if all_digits(body) {
                    lemma_all_digits_index(body, k - start);
                }
            }
            return None;
        }
        acc = acc * 10 + (c as u32 - '0' as u32) as i128;
        proof {
            assert(acc == digits_value(next));
            assert(all_digits(next));
        }
        if acc > bound {
            proof {
                if all_digits(body) {
                    lemma_digits_value_grows(body, k - start + 1);
                }
            }
            return None;
        }
        k += 1;
    }
    proof {
        assert(body.take(n - start) == body);
    }
    if neg {
        Some((0 - acc) as i64)
    } else if acc < bound {
        Some(acc as i64)
    } else {
        None
    }
}

/// Whether `c` has the Unicode `White_Space` property (what
/// `char::is_whitespace` answers).
pub open spec fn char_is_whitespace(c: char) -> bool {
    let u = c as u32;
    ||| 0x9 <= u <= 0xD
    ||| u == 0x20
    ||| u == 0x85
    ||| u == 0xA0
    ||| u == 0x1680
    ||| 0x2000 <= u <= 0x200A
    ||| u == 0x2028
    ||| u == 0x2029
    ||| u == 0x202F
    ||| u == 0x205F
    ||| u == 0x3000
}

/// What `char::is_alphabetic` answers for `c`.
pub uninterp spec fn char_is_alphabetic(c: char) -> bool;

/// Whether `c` is whitespace.
fn is_whitespace(c: char) -> (res: bool)
    ensures
        res == char_is_whitespace(c),
{
    let u = c as u32;
    (0x9 <= u && u <= 0xD) || u == 0x20 || u == 0x85 || u == 0xA0 || u == 0x1680 || (0x2000 <= u && u
        <= 0x200A) || u == 0x2028 || u == 0x2029 || u == 0x202F || u == 0x205F || u == 0x3000
}

/// `char::is_alphabetic`: whether `c` has the Unicode `Alphabetic`
/// property. Nothing more of that property is stated.
#[verifier::external_body]
fn is_alphabetic(c: char) -> (res: bool)
    ensures
        res == char_is_alphabetic(c),
{
    c.is_alphabetic()
}

/// The characters of `s`, in order.
pub(crate) fn chars_of(s: &str) -> (res: Vec<char>)
    ensures
        res@ == s@,
{
    broadcast use vstd::string::axiom_spec_iter;
    let mut out: Vec<char> = Vec::new();
    for c in it: s.chars()
        invariant
            it.seq() == s@,
            out@ == s@.take(out@.len() as int),
            out@.len() == it.index(),
    {
        proof {
            assert(s@.take(out@.len() + 1int) =~= s@.take(out@.len() as int).push(c));
        }
        out.push(c);
    }
    proof {
        assert(s@.take(s@.len() as int) == s@);
    }
    out
}

/// `r` without its leading whitespace.
pub open spec fn trim_front(r: Seq<char>) -> Seq<char>
    decreases r.len(),
{
    if r.len() > 0 && char_is_whitespace(r[0]) {
        trim_front(r.drop_first())
    } else {
        r
    }
}

/// `r` without its trailing whitespace.
pub open spec fn trim_back(r: Seq<char>) -> Seq<char>
    decreases r.len(),
{
    if r.len() > 0 && char_is_whitespace(r.last()) {
        trim_back(r.drop_last())
    } else {
        r
    }
}

/// `r` without leading and trailing whitespace, as `str::trim` gives it.
pub open spec fn trim(r: Seq<char>) -> Seq<char> {
    trim_back(trim_front(r))
}

/// Ends the current run of characters: it becomes a token, trimmed, unless
/// nothing is left of it.
pub open spec fn flush(toks: Seq<Seq<char>>, run: Seq<char>) -> Seq<Seq<char>> {
    if trim(run).len() > 0 {
        toks.push(trim(run))
    } else {
        toks
    }
}

/// Scans `s` from the left: the tokens finished so far and the current run.
/// A space ends a run; a parenthesis ends a run and is a token of its own;
/// every other character extends the run.
pub open spec fn scan(s: Seq<char>) -> (Seq<Seq<char>>, Seq<char>)
    decreases s.len(),
{
    if s.len() == 0 {
        (Seq::empty(), Seq::empty())
    } else {
        let (toks, run) = scan(s.drop_last());
        let c = s.last();
        if c == ' ' {
            (flush(toks, run), Seq::empty())
        } else if c == '(' || c == ')' {
            (flush(toks, run).push(seq![c]), Seq::empty())
        } else {
            (toks, run.push(c))
        }
    }
}

/// The tokens of `s`: with a space put on either side of every parenthesis,
/// the pieces between spaces, trimmed, leaving out those that are empty.
pub open spec fn tokens(s: Seq<char>) -> Seq<Seq<char>> {
    flush(scan(s).0, scan(s).1)
}

/// The characters of each token.
pub open spec fn views(v: Seq<Vec<char>>) -> Seq<Seq<char>> {
    v.map_values(|x: Vec<char>| x@)
}

proof fn lemma_views_push(v: Seq<Vec<char>>, x: Vec<char>)
    ensures
        views(v.push(x)) == views(v).push(x@),
{
    assert(views(v.push(x)) =~= views(v).push(x@));
}

/// Trims `run` as `str::trim` does.
#[verifier::loop_isolation(false)]
fn trim_run(run: &Vec<char>) -> (res: Vec<char>)
    ensures
        res@ == trim(run@),
{
    let n = run.len();
    let mut a: usize = 0;
    assert(run@.subrange(0, n as int) == run@);
    while a < n && is_whitespace(run[a])
        invariant
            a <= n,
            trim_front(run@) == trim_front(run@.subrange(a as int, n as int)),
        decreases n - a,
    {
        assert(run@.subrange(a as int, n as int).drop_first() == run@.subrange(a + 1, n as int));
        a += 1;
    }
    let ghost front = run@.subrange(a as int, n as int);
    assert(trim_front(run@) == front);
    let mut b: usize = n;
    while b > a && is_whitespace(run[b - 1])
        invariant
            a <= b <= n,
            trim_back(front) == trim_back(run@.subrange(a as int, b as int)),
        decreases b - a,
    {
        assert(run@.subrange(a as int, b as int).drop_last() == run@.subrange(a as int, b - 1));
        b -= 1;
    }
    assert(trim_back(front) == run@.subrange(a as int, b as int));
    let mut out: Vec<char> = Vec::new();
    let mut k: usize = a;
    while k < b
        invariant
            a <= k <= b,
            out@ == run@.subrange(a as int, k as int),
        decreases b - k,
    {
        out.push(run[k]);
        k += 1;
    }
    out
}

/// Ends the current run, as `flush` says.
fn flush_run(toks: &mut Vec<Vec<char>>, run: &Vec<char>)
    ensures
        views(final(toks)@) == flush(views(old(toks)@), run@),
{
    let t = trim_run(run);
    if t.len() > 0 {
        proof {
            lemma_views_push(toks@, t);
        }
        toks.push(t);
    }
}

/// Splits `s` into its tokens.
pub fn tokenize(s: &Vec<char>) -> (res: Vec<Vec<char>>)
    ensures
        views(res@) == tokens(s@),
{
    let mut toks: Vec<Vec<char>> = Vec::new();
    let mut run: Vec<char> = Vec::new();
    let mut k: usize = 0;
    proof {
        assert(s@.take(0) =~= Seq::<char>::empty());
        assert(views(toks@) =~= Seq::<Seq<char>>::empty());
    }
    while k < s.len()
        invariant
            k <= s@.len(),
            (views(toks@), run@) == scan(s@.take(k as int)),
        decreases s.len() - k,
    {
        let c = s[k];
        proof {
            assert(s@.take(k + 1).drop_last() == s@.take(k as int));
            assert(s@.take(k + 1).last() == c);
        }
        if c == ' ' {
            flush_run(&mut toks, &run);
            run = Vec::new();
        } else if c == '(' || c == ')' {
            flush_run(&mut toks, &run);
            run = Vec::new();
            let mut p: Vec<char> = Vec::new();
            p.push(c);
            proof {
                lemma_views_push(toks@, p);
                assert(p@ =~= seq![c]);
            }
            toks.push(p);
        } else {
            run.push(c);
        }
        k += 1;
    }
    proof {
        assert(s@.take(s@.len() as int) == s@);
    }
    flush_run(&mut toks, &run);
    toks
}

/// An expression as the grammar reads it.
pub enum Term {
    /// A pattern variable: a token that starts with `?`.
    Var(Seq<char>),
    /// An integer constant.
    Num(i64),
    /// A variable of the expression: a token that starts with a letter.
    Name(Seq<char>),
    /// `(! a)`.
    Not(Box<Term>),
    /// `(op a b)`, with the e-node of `op` (its children unused).
    Bin(CaviarLang, Box<Term>, Box<Term>),
}

/// The placeholder child of the e-nodes in patterns.
pub open spec fn nil() -> OffsetId {
    (Offset(0), Id(0))
}

/// The e-node of a binary operator token.
pub open spec fn op_of(t: Seq<char>) -> Option<CaviarLang> {
    let k = [nil(), nil()];
    if t == seq!['+'] {
        Some(CaviarLang::Add(k))
    } else if t == seq!['-'] {
        Some(CaviarLang::Sub(k))
    } else if t == seq!['*'] {
        Some(CaviarLang::Mul(k))
    } else if t == seq!['/'] {
        Some(CaviarLang::Div(k))
    } else if t == seq!['%'] {
        Some(CaviarLang::Mod(k))
    } else if t == seq!['m', 'a', 'x'] {
        Some(CaviarLang::Max(k))
    } else if t == seq!['m', 'i', 'n'] {
        Some(CaviarLang::Min(k))
    } else if t == seq!['<'] {
        Some(CaviarLang::Lt(k))
    } else if t == seq!['>'] {
        Some(CaviarLang::Gt(k))
    } else if t == seq!['<', '='] {
        Some(CaviarLang::Let(k))
    } else if t == seq!['>', '='] {
        Some(CaviarLang::Get(k))
    } else if t == seq!['=', '='] {
        Some(CaviarLang::Eq(k))
    } else if t == seq!['!', '='] {
        Some(CaviarLang::IEq(k))
    } else if t == seq!['|', '|'] {
        Some(CaviarLang::Or(k))
    } else if t == seq!['&', '&'] {
        Some(CaviarLang::And(k))
    } else {
        None
    }
}

/// The expression of a single token: a pattern variable, an integer, or a
/// name (`max` and `min` are operators, not names).
pub open spec fn atom(t: Seq<char>) -> Option<Term> {
    if t.len() == 0 {
        None
    } else if t[0] == '?' {
        Some(Term::Var(t))
    } else if parse_i64(t) is Some {
        Some(Term::Num(parse_i64(t)->0))
    } else if char_is_alphabetic(t[0]) && t != seq!['m', 'a', 'x'] && t != seq!['m', 'i', 'n'] {
        Some(Term::Name(t))
    } else {
        None
    }
}

/// Reads one expression from the tokens at `i`: the expression and the
/// index after it. The grammar is
/// `e ::= atom | ( ! e ) | ( op e e ) | ( e )`.
pub open spec fn read_expr(toks: Seq<Seq<char>>, i: int) -> Option<(Term, int)>
    decreases toks.len() - i,
{
    if !(0 <= i < toks.len()) {
        None
    } else if toks[i] != seq!['('] {
        match atom(toks[i]) {
            Some(t) => Some((t, i + 1)),
            None => None,
        }
    } else if i + 1 >= toks.len() {
        None
    } else if toks[i + 1] == seq!['!'] {
        match read_expr(toks, i + 2) {
            Some((a, k)) => if i + 2 < k < toks.len() && toks[k] == seq![')'] {
                Some((Term::Not(Box::new(a)), k + 1))
            } else {
                None
            },
            None => None,
        }
    } else if op_of(toks[i + 1]) is Some {
        match read_expr(toks, i + 2) {
            Some((a, k)) => if i + 2 < k < toks.len() {
                match read_expr(toks, k) {
                    Some((b, m)) => if k < m < toks.len() && toks[m] == seq![')'] {
                        Some((Term::Bin(op_of(toks[i + 1])->0, Box::new(a), Box::new(b)), m + 1))
                    } else {
                        None
                    },
                    None => None,
                }
            } else {
                None
            },
            None => None,
        }
    } else {
        match read_expr(toks, i + 1) {
            Some((a, k)) => if i + 1 < k < toks.len() && toks[k] == seq![')'] {
                Some((a, k + 1))
            } else {
                None
            },
            None => None,
        }
    }
}

/// The expression that all of `toks` form, if they form one.
pub open spec fn read_all(toks: Seq<Seq<char>>) -> Option<Term> {
    match read_expr(toks, 0) {
        Some((t, j)) => if j == toks.len() {
            Some(t)
        } else {
            None
        },
        None => None,
    }
}

/// Whether the pattern `p` is the expression `t`.
pub open spec fn denotes(p: Pattern<CaviarAnalysis>, t: Term) -> bool
    decreases t,
{
    match t {
        Term::Var(v) => p matches Pattern::PVar(s) && s@ == v,
        Term::Num(c) => p matches Pattern::Node(n, ch) && n == CaviarLang::Constant(c) && ch@.len()
            == 0,
        Term::Name(v) => p matches Pattern::Node(n, ch) && n matches CaviarLang::Symbol(s) && s@
            == v && ch@.len() == 0,
        Term::Not(a) => p matches Pattern::Node(n, ch) && n == CaviarLang::Not(nil()) && ch@.len()
            == 1 && denotes(ch@[0], *a),
        Term::Bin(op, a, b) => p matches Pattern::Node(n, ch) && n == op && ch@.len() == 2
            && denotes(ch@[0], *a) && denotes(ch@[1], *b),
    }
}

fn is1(t: &Vec<char>, a: char) -> (res: bool)
    ensures
        res == (t@ == seq![a]),
{
    let r = t.len() == 1 && t[0] == a;
    proof {
        if r {
            assert(t@ =~= seq![a]);
        }
    }
    r
}

fn is2(t: &Vec<char>, a: char, b: char) -> (res: bool)
    ensures
        res == (t@ == seq![a, b]),
{
    let r = t.len() == 2 && t[0] == a && t[1] == b;
    proof {
        if r {
            assert(t@ =~= seq![a, b]);
        }
    }
    r
}

fn is3(t: &Vec<char>, a: char, b: char, c: char) -> (res: bool)
    ensures
        res == (t@ == seq![a, b, c]),
{
    let r = t.len() == 3 && t[0] == a && t[1] == b && t[2] == c;
    proof {
        if r {
            assert(t@ =~= seq![a, b, c]);
        }
    }
    r
}

/// The e-node of a binary operator token, as `op_of` says.
fn operator(t: &Vec<char>) -> (res: Option<CaviarLang>)
    ensures
        res == op_of(t@),
{
    let k = [(Offset(0), Id(0)), (Offset(0), Id(0))];
    if is1(t, '+') {
        Some(CaviarLang::Add(k))
    } else if is1(t, '-') {
        Some(CaviarLang::Sub(k))
    } else if is1(t, '*') {
        Some(CaviarLang::Mul(k))
    } else if is1(t, '/') {
        Some(CaviarLang::Div(k))
    } else if is1(t, '%') {
        Some(CaviarLang::Mod(k))
    } else if is3(t, 'm', 'a', 'x') {
        Some(CaviarLang::Max(k))
    } else if is3(t, 'm', 'i', 'n') {
        Some(CaviarLang::Min(k))
    } else if is1(t, '<') {
        Some(CaviarLang::Lt(k))
    } else if is1(t, '>') {
        Some(CaviarLang::Gt(k))
    } else if is2(t, '<', '=') {
        Some(CaviarLang::Let(k))
    } else if is2(t, '>', '=') {
        Some(CaviarLang::Get(k))
    } else if is2(t, '=', '=') {
        Some(CaviarLang::Eq(k))
    } else if is2(t, '!', '=') {
        Some(CaviarLang::IEq(k))
    } else if is2(t, '|', '|') {
        Some(CaviarLang::Or(k))
    } else if is2(t, '&', '&') {
        Some(CaviarLang::And(k))
    } else {
        None
    }
}

/// The pattern of a single token, as `atom` says.
fn read_atom(t: &Vec<char>) -> (res: Option<Pattern<CaviarAnalysis>>)
    ensures
        match atom(t@) {
            Some(a) => res matches Some(p) && denotes(p, a),
            None => res is None,
        },
{
    if t.len() == 0 {
        return None;
    }
    if t[0] == '?' {
        return Some(Pattern::PVar(Symbol::from_chars(t.as_slice())));
    }
    match parse_int(t) {
        Some(c) => {
            return Some(Pattern::Node(CaviarLang::Constant(c), Vec::new()));
        },
        None => {},
    }
    if is_alphabetic(t[0]) && !is3(t, 'm', 'a', 'x') && !is3(t, 'm', 'i', 'n') {
        return Some(Pattern::Node(CaviarLang::Symbol(Symbol::from_chars(t.as_slice())), Vec::new()));
    }
    None
}

/// Reads one expression from the tokens at `i`, as `read_expr` says.
fn parse_at(toks: &Vec<Vec<char>>, i: usize) -> (res: Option<(Pattern<CaviarAnalysis>, usize)>)
    ensures
        match read_expr(views(toks@), i as int) {
            Some((t, j)) => res matches Some((p, j2)) && j2 == j && denotes(p, t),
            None => res is None,
        },
    decreases toks@.len() - i,
{
    let ghost v = views(toks@);
    if i >= toks.len() {
        return None;
    }
    proof {
        assert(v[i as int] == toks@[i as int]@);
    }
    if !is1(&toks[i], '(') {
        return match read_atom(&toks[i]) {
            Some(p) => Some((p, i + 1)),
            None => None,
        };
    }
    if i + 1 >= toks.len() {
        return None;
    }
    proof {
        assert(v[i + 1] == toks@[i + 1]@);
    }
    if is1(&toks[i + 1], '!') {
        match parse_at(toks, i + 2) {
            Some((a, k)) => {
                if i + 2 < k && k < toks.len() && is1(&toks[k], ')') {
                    proof {
                        assert(v[k as int] == toks@[k as int]@);
                    }
                    let mut ch: Vec<Pattern<CaviarAnalysis>> = Vec::new();
                    ch.push(a);
                    Some((Pattern::Node(CaviarLang::Not((Offset(0), Id(0))), ch), k + 1))
                } else {
                    proof {
                        if k < toks.len() {
                            assert(v[k as int] == toks@[k as int]@);
                        }
                    }
                    None
                }
            },
            None => None,
        }
    } else {
        match operator(&toks[i + 1]) {
            Some(op) => match parse_at(toks, i + 2) {
                Some((a, k)) => {
                    if i + 2 < k && k < toks.len() {
                        match parse_at(toks, k) {
                            Some((b, m)) => {
                                if k < m && m < toks.len() && is1(&toks[m], ')') {
                                    proof {
                                        assert(v[m as int] == toks@[m as int]@);
                                    }
                                    let mut ch: Vec<Pattern<CaviarAnalysis>> = Vec::new();
                                    ch.push(a);
                                    ch.push(b);
                                    Some((Pattern::Node(op, ch), m + 1))
                                } else {
                                    proof {
                                        if m < toks.len() {
                                            assert(v[m as int] == toks@[m as int]@);
                                        }
                                    }
                                    None
                                }
                            },
                            None => None,
                        }
                    } else {
                        None
                    }
                },
                None => None,
            },
            None => match parse_at(toks, i + 1) {
                Some((a, k)) => {
                    if i + 1 < k && k < toks.len() && is1(&toks[k], ')') {
                        proof {
                            assert(v[k as int] == toks@[k as int]@);
                        }
                        Some((a, k + 1))
                    } else {
                        proof {
                            if k < toks.len() {
                                assert(v[k as int] == toks@[k as int]@);
                            }
                        }
                        None
                    }
                },
                None => None,
            },
        }
    }
}

/// Parses an expression, or a pattern, such as `(+ ?a (* 2 x))`.
/// `None` exactly where the text is not one expression of the grammar of
/// `read_expr`: an unknown operator (`(^ 1 2)`), `!` with two operands
/// (`(! 1 2)`), an operator with too few operands (`(+ 1)`), unbalanced
/// brackets, or text left over. Those are the texts on which reading fails;
/// the caller decides whether that is fatal.
pub fn parse(s: &str) -> (res: Option<Pattern<CaviarAnalysis>>)
    ensures
        match read_all(tokens(s@)) {
            Some(t) => res matches Some(p) && denotes(p, t),
            None => res is None,
        },
{
    let chars = chars_of(s);
    let toks = tokenize(&chars);
    match parse_at(&toks, 0) {
        Some((p, j)) => {
            if j == toks.len() {
                Some(p)
            } else {
                None
            }
        },
        None => None,
    }
}

} // verus!
