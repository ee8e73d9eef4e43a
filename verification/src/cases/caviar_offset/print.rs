use vstd::prelude::*;
use crate::api::{Analysis, Id};
use crate::offset::Offset;
use crate::cases::caviar_offset::analysis::{op_text, pretty, CaviarAnalysis};
use crate::cases::caviar_offset::parse::{
    all_digits, char_is_alphabetic, char_is_whitespace, chars_of, denotes, digits_value, flush, is_digit, nil, op_of,
    parse_i64, read_all, read_expr, scan, tokens, trim, trim_back, trim_front, Term,
};
use crate::cases::caviar_offset::CaviarLang;
use crate::decimal::{decimal, decimal_chars, digit_char, digits};
use crate::ematch::{lemma_all_well_shaped, well_shaped, Pattern};
use crate::symbol::string_of_chars;

verus! {

broadcast use vstd::array::group_array_axioms;

/// The operator token of an e-node: the one that `parse` reads for it.
pub open spec fn op_token(n: CaviarLang) -> Seq<char> {
    match n {
        CaviarLang::Add(_) => seq!['+'],
        CaviarLang::Sub(_) => seq!['-'],
        CaviarLang::Mul(_) => seq!['*'],
        CaviarLang::Div(_) => seq!['/'],
        CaviarLang::Mod(_) => seq!['%'],
        CaviarLang::Max(_) => seq!['m', 'a', 'x'],
        CaviarLang::Min(_) => seq!['m', 'i', 'n'],
        CaviarLang::Lt(_) => seq!['<'],
        CaviarLang::Gt(_) => seq!['>'],
        CaviarLang::Let(_) => seq!['<', '='],
        CaviarLang::Get(_) => seq!['>', '='],
        CaviarLang::Eq(_) => seq!['=', '='],
        CaviarLang::IEq(_) => seq!['!', '='],
        CaviarLang::Or(_) => seq!['|', '|'],
        CaviarLang::And(_) => seq!['&', '&'],
        CaviarLang::Not(_) => seq!['!'],
        CaviarLang::Constant(_) => seq![],
        CaviarLang::Symbol(_) => seq![],
    }
}

/// The text of a pattern: a variable or a name as it is, a constant in
/// decimal, an operator node as `(op a b)` or `(! a)`, and a shifted
/// pattern as `Offset(g) * p`.
pub open spec fn print_spec(p: Pattern<CaviarAnalysis>) -> Seq<char>
    decreases p,
{
    match p {
        Pattern::PVar(v) => v@,
        Pattern::Node(n, subs) => match n {
            CaviarLang::Constant(c) => decimal(c as int),
            CaviarLang::Symbol(x) => x@,
            CaviarLang::Not(_) => if subs@.len() >= 1 {
                seq!['(', '!', ' '] + print_spec(subs@[0]) + seq![')']
            } else {
                seq![]
            },
            _ => if subs@.len() >= 2 {
                seq!['('] + op_token(n) + seq![' '] + print_spec(subs@[0]) + seq![' '] + print_spec(subs@[1])
                    + seq![')']
            } else {
                seq![]
            },
        },
        Pattern::G(g, q) => seq!['O', 'f', 'f', 's', 'e', 't', '('] + decimal(g.0 as int) + seq![
            ')',
            ' ',
            '*',
            ' ',
        ] + print_spec(*q),
    }
}

fn push_str(out: &mut Vec<char>, s: &str)
    ensures
        final(out)@ == old(out)@ + s@,
{
    let mut cs = chars_of(s);
    out.append(&mut cs);
}

fn push_op(out: &mut Vec<char>, n: &CaviarLang)
    ensures
        final(out)@ == old(out)@ + op_token(*n),
{
    let ghost start = out@;
    match n {
        CaviarLang::Add(_) => out.push('+'),
        CaviarLang::Sub(_) => out.push('-'),
        CaviarLang::Mul(_) => out.push('*'),
        CaviarLang::Div(_) => out.push('/'),
        CaviarLang::Mod(_) => out.push('%'),
        CaviarLang::Max(_) => {
            out.push('m');
            out.push('a');
            out.push('x');
        },
        CaviarLang::Min(_) => {
            out.push('m');
            out.push('i');
            out.push('n');
        },
        CaviarLang::Lt(_) => out.push('<'),
        CaviarLang::Gt(_) => out.push('>'),
        CaviarLang::Let(_) => {
            out.push('<');
            out.push('=');
        },
        CaviarLang::Get(_) => {
            out.push('>');
            out.push('=');
        },
        CaviarLang::Eq(_) => {
            out.push('=');
            out.push('=');
        },
        CaviarLang::IEq(_) => {
            out.push('!');
            out.push('=');
        },
        CaviarLang::Or(_) => {
            out.push('|');
            out.push('|');
        },
        CaviarLang::And(_) => {
            out.push('&');
            out.push('&');
        },
        CaviarLang::Not(_) => out.push('!'),
        CaviarLang::Constant(_) => {},
        CaviarLang::Symbol(_) => {},
    }
    proof {
        assert(out@ =~= start + op_token(*n));
    }
}

/// Appends the text of `p` to `out`.
fn print_into(p: &Pattern<CaviarAnalysis>, out: &mut Vec<char>)
    requires
        well_shaped::<CaviarAnalysis>(*p),
    ensures
        final(out)@ == old(out)@ + print_spec(*p),
    decreases p,
{
    let ghost start = out@;
    match p {
        Pattern::PVar(v) => {
            push_str(out, v.as_str());
        },
        Pattern::Node(n, subs) => {
            proof {
                lemma_all_well_shaped::<CaviarAnalysis>(subs@);
            }
            match n {
                CaviarLang::Constant(c) => {
                    let mut d = decimal_chars(*c);
                    out.append(&mut d);
                },
                CaviarLang::Symbol(x) => {
                    push_str(out, x.as_str());
                },
                CaviarLang::Not(_) => {
                    proof {
                        assert(CaviarAnalysis::kids_of(*n).len() == 1);
                    }
                    out.push('(');
                    out.push('!');
                    out.push(' ');
                    print_into(&subs[0], out);
                    out.push(')');
                },
                _ => {
                    proof {
                        assert(CaviarAnalysis::kids_of(*n).len() == 2);
                    }
                    out.push('(');
                    push_op(out, n);
                    out.push(' ');
                    print_into(&subs[0], out);
                    out.push(' ');
                    print_into(&subs[1], out);
                    out.push(')');
                },
            }
        },
        Pattern::G(g, q) => {
            push_str(out, "Offset(");
            let mut d = decimal_chars(g.0);
            out.append(&mut d);
            push_str(out, ") * ");
            print_into(&**q, out);
            proof {
                reveal_strlit("Offset(");
                reveal_strlit(") * ");
            }
        },
    }
    proof {
        assert(out@ =~= start + print_spec(*p));
    }
}

/// The text of `p` (see `print_spec`).
pub fn prettyprint(p: &Pattern<CaviarAnalysis>) -> (res: String)
    requires
        well_shaped::<CaviarAnalysis>(*p),
    ensures
        res@ == print_spec(*p),
{
    let mut out: Vec<char> = Vec::new();
    print_into(p, &mut out);
    proof {
        assert(out@ =~= print_spec(*p));
    }
    string_of_chars(out.as_slice())
}


/// `w` holds no space and no parenthesis, and neither starts nor ends with
/// whitespace: it is a token of its own.
pub open spec fn plain(w: Seq<char>) -> bool {
    &&& forall|i: int| 0 <= i < w.len() ==> #[trigger] w[i] != ' ' && w[i] != '(' && w[i] != ')'
    &&& w.len() > 0 ==> !char_is_whitespace(w[0]) && !char_is_whitespace(w[w.len() - 1])
}

/// `w` holds no space and no parenthesis.
pub open spec fn unsplit(w: Seq<char>) -> bool {
    forall|i: int| 0 <= i < w.len() ==> #[trigger] w[i] != ' ' && w[i] != '(' && w[i] != ')'
}

/// One character of the scan of `scan`.
pub open spec fn scan_step(st: (Seq<Seq<char>>, Seq<char>), c: char) -> (Seq<Seq<char>>, Seq<char>) {
    if c == ' ' {
        (flush(st.0, st.1), Seq::empty())
    } else if c == '(' || c == ')' {
        (flush(st.0, st.1).push(seq![c]), Seq::empty())
    } else {
        (st.0, st.1.push(c))
    }
}

/// The scan of `s` started from the state `st`.
pub open spec fn scan_from(st: (Seq<Seq<char>>, Seq<char>), s: Seq<char>) -> (Seq<Seq<char>>, Seq<char>)
    decreases s.len(),
{
    if s.len() == 0 {
        st
    } else {
        scan_step(scan_from(st, s.drop_last()), s.last())
    }
}

proof fn lemma_scan_is_from(s: Seq<char>)
    ensures
        scan(s) == scan_from((Seq::empty(), Seq::empty()), s),
    decreases s.len(),
{
    if s.len() > 0 {
        lemma_scan_is_from(s.drop_last());
    }
}

proof fn lemma_scan_concat(st: (Seq<Seq<char>>, Seq<char>), x: Seq<char>, y: Seq<char>)
    ensures
        scan_from(st, x + y) == scan_from(scan_from(st, x), y),
    decreases y.len(),
{
    if y.len() == 0 {
        assert(x + y =~= x);
    } else {
        lemma_scan_concat(st, x, y.drop_last());
        assert((x + y).drop_last() =~= x + y.drop_last());
        assert((x + y).last() == y.last());
    }
}

proof fn lemma_scan_plain(st: (Seq<Seq<char>>, Seq<char>), w: Seq<char>)
    requires
        unsplit(w),
    ensures
        scan_from(st, w) == (st.0, st.1 + w),
    decreases w.len(),
{
    if w.len() == 0 {
        assert(st.1 + w =~= st.1);
    } else {
        lemma_scan_plain(st, w.drop_last());
        assert(w.last() == w[w.len() - 1]);
        assert(st.1 + w =~= (st.1 + w.drop_last()).push(w.last()));
    }
}

proof fn lemma_trim_plain(w: Seq<char>)
    requires
        plain(w),
    ensures
        trim(w) == w,
{
    if w.len() > 0 {
        assert(!char_is_whitespace(w[0]));
        assert(!char_is_whitespace(w[w.len() - 1]));
    }
}

proof fn lemma_scan_one(st: (Seq<Seq<char>>, Seq<char>), c: char)
    ensures
        scan_from(st, seq![c]) == scan_step(st, c),
{
    assert(seq![c].drop_last() =~= Seq::<char>::empty());
    assert(scan_from(st, Seq::<char>::empty()) == st);
    assert(seq![c].last() == c);
}

/// The digits of a number are decimal digits, the first one included,
/// and stand for the number.
proof fn lemma_digits(n: nat)
    ensures
        digits(n).len() > 0,
        forall|i: int| 0 <= i < digits(n).len() ==> is_digit(#[trigger] digits(n)[i]),
        all_digits(digits(n)),
        digits_value(digits(n)) == n,
    decreases n,
{
    let c = digit_char(n % 10);
    assert(is_digit(c) && (c as int) - ('0' as int) == n % 10);
    if n >= 10 {
        lemma_digits(n / 10);
        let d = digits(n / 10);
        assert(digits(n) == d.push(c));
        assert(digits(n).drop_last() == d);
        assert(digits(n).last() == c);
        vstd::arithmetic::div_mod::lemma_fundamental_div_mod(n as int, 10);
        assert(digits_value(digits(n)) == digits_value(d) * 10 + (c as int - '0' as int));
        assert(all_digits(digits(n)));
        assert forall|i: int| 0 <= i < digits(n).len() implies is_digit(#[trigger] digits(n)[i]) by {
            if i < d.len() {
                assert(digits(n)[i] == d[i]);
            }
        }
    } else {
        assert(digits(n) == seq![c]);
        assert(digits(n).drop_last() =~= Seq::<char>::empty());
        assert(digits(n).last() == c);
        assert(n % 10 == n);
        assert(all_digits(digits(n).drop_last()));
        assert(digits_value(digits(n).drop_last()) == 0);
        assert(digits_value(digits(n)) == 0 * 10 + (c as int - '0' as int));
    }
}

/// A constant's decimal text is plain and reads back as the constant.
proof fn lemma_decimal(c: i64)
    ensures
        plain(decimal(c as int)),
        decimal(c as int).len() > 0,
        decimal(c as int)[0] != '?',
        decimal(c as int)[0] != '(',
        parse_i64(decimal(c as int)) == Some(c),
{
    if c < 0 {
        let m = (-c) as nat;
        lemma_digits(m);
        let t = decimal(c as int);
        assert(t == seq!['-'] + digits(m));
        assert(t.drop_first() =~= digits(m));
        assert forall|i: int| 0 <= i < t.len() implies #[trigger] t[i] != ' ' && t[i] != '(' && t[i] != ')' by {
            if i > 0 {
                assert(t[i] == digits(m)[i - 1]);
            }
        }
        assert(t[t.len() - 1] == digits(m)[digits(m).len() - 1]);
        assert(!char_is_whitespace('-'));
    } else {
        lemma_digits(c as nat);
    }
}

/// `p` can be written out and read back: variables and names are plain
/// tokens that read as such, an operator e-node is the one that its token
/// reads as (placeholder children) with as many sub-patterns as children,
/// and nothing is shifted.
pub open spec fn readable(p: Pattern<CaviarAnalysis>) -> bool
    decreases p,
{
    match p {
        Pattern::PVar(v) => v@.len() > 0 && v@[0] == '?' && plain(v@),
        Pattern::Node(n, subs) => match n {
            CaviarLang::Constant(_) => subs@.len() == 0,
            CaviarLang::Symbol(x) => {
                &&& subs@.len() == 0
                &&& x@.len() > 0
                &&& plain(x@)
                &&& x@[0] != '?'
                &&& parse_i64(x@) is None
                &&& char_is_alphabetic(x@[0])
                &&& x@ != seq!['m', 'a', 'x']
                &&& x@ != seq!['m', 'i', 'n']
            },
            CaviarLang::Not(k) => k == nil() && subs@.len() == 1 && readable(subs@[0]),
            _ => op_of(op_token(n)) == Some(n) && subs@.len() == 2 && readable(subs@[0]) && readable(subs@[1]),
        },
        Pattern::G(..) => false,
    }
}

/// Whether `p` is written as a single token.
pub open spec fn is_atom(p: Pattern<CaviarAnalysis>) -> bool {
    match p {
        Pattern::PVar(_) => true,
        Pattern::Node(n, _) => n is Constant || n is Symbol,
        Pattern::G(..) => false,
    }
}

/// The tokens of the text of `p`.
pub open spec fn tok_spec(p: Pattern<CaviarAnalysis>) -> Seq<Seq<char>>
    decreases p,
{
    match p {
        Pattern::PVar(v) => seq![v@],
        Pattern::Node(n, subs) => match n {
            CaviarLang::Constant(c) => seq![decimal(c as int)],
            CaviarLang::Symbol(x) => seq![x@],
            CaviarLang::Not(_) => if subs@.len() >= 1 {
                seq![seq!['('], seq!['!']] + tok_spec(subs@[0]) + seq![seq![')']]
            } else {
                seq![]
            },
            _ => if subs@.len() >= 2 {
                seq![seq!['('], op_token(n)] + tok_spec(subs@[0]) + tok_spec(subs@[1]) + seq![seq![')']]
            } else {
                seq![]
            },
        },
        Pattern::G(..) => seq![],
    }
}

/// The expression that `p` is.
pub open spec fn term_of(p: Pattern<CaviarAnalysis>) -> Term
    decreases p,
{
    match p {
        Pattern::PVar(v) => Term::Var(v@),
        Pattern::Node(n, subs) => match n {
            CaviarLang::Constant(c) => Term::Num(c),
            CaviarLang::Symbol(x) => Term::Name(x@),
            CaviarLang::Not(_) => if subs@.len() >= 1 {
                Term::Not(Box::new(term_of(subs@[0])))
            } else {
                Term::Num(0)
            },
            _ => if subs@.len() >= 2 {
                Term::Bin(n, Box::new(term_of(subs@[0])), Box::new(term_of(subs@[1])))
            } else {
                Term::Num(0)
            },
        },
        Pattern::G(..) => Term::Num(0),
    }
}

/// Scanning the text of a readable `p` from a state with no pending run:
/// a single token is left pending; anything else adds its tokens.
proof fn lemma_scan_print(toks: Seq<Seq<char>>, p: Pattern<CaviarAnalysis>)
    requires
        readable(p),
    ensures
        tok_spec(p).len() > 0,
        is_atom(p) ==> tok_spec(p).len() == 1 && plain(tok_spec(p)[0]) && tok_spec(p)[0].len() > 0
            && scan_from((toks, Seq::empty()), print_spec(p)) == (toks, tok_spec(p)[0]),
        !is_atom(p) ==> scan_from((toks, Seq::empty()), print_spec(p)) == (toks + tok_spec(p), Seq::<char>::empty()),
    decreases p,
{
    let e = Seq::<char>::empty();
    match p {
        Pattern::PVar(v) => {
            lemma_scan_plain((toks, e), v@);
            assert(e + v@ =~= v@);
        },
        Pattern::Node(n, subs) => match n {
            CaviarLang::Constant(c) => {
                lemma_decimal(c);
                lemma_scan_plain((toks, e), decimal(c as int));
                assert(e + decimal(c as int) =~= decimal(c as int));
            },
            CaviarLang::Symbol(x) => {
                lemma_scan_plain((toks, e), x@);
                assert(e + x@ =~= x@);
            },
            CaviarLang::Not(_) => {
                let a = subs@[0];
                let pa = print_spec(a);
                lemma_trim_plain(seq!['!']);
                lemma_trim_plain(Seq::<char>::empty());
                let t1 = toks.push(seq!['(']).push(seq!['!']);
                let s1 = seq!['(', '!', ' '];
                assert(s1 == seq!['('] + seq!['!'] + seq![' ']);
                lemma_scan_concat((toks, e), seq!['('] + seq!['!'], seq![' ']);
                lemma_scan_concat((toks, e), seq!['('], seq!['!']);
                lemma_scan_one((toks, e), '(');
                let st_a = scan_step((toks, e), '(');
                assert(st_a == (toks.push(seq!['(']), e));
                lemma_scan_one(st_a, '!');
                let st_b = scan_step(st_a, '!');
                assert(st_b == (toks.push(seq!['(']), seq!['!'])) by {
                    assert(e.push('!') =~= seq!['!']);
                }
                lemma_scan_one(st_b, ' ');
                assert(scan_from((toks, e), s1) == (t1, e));
                lemma_scan_print(t1, a);
                lemma_scan_concat((toks, e), s1, pa);
                lemma_scan_concat((toks, e), s1 + pa, seq![')']);
                let st_c = scan_from((t1, e), pa);
                lemma_scan_one(st_c, ')');
                assert(print_spec(p) == s1 + pa + seq![')']);
                if is_atom(a) {
                    lemma_trim_plain(tok_spec(a)[0]);
                    assert(t1.push(tok_spec(a)[0]).push(seq![')']) =~= toks + tok_spec(p));
                } else {
                    assert((t1 + tok_spec(a)).push(seq![')']) =~= toks + tok_spec(p));
                }
            },
            _ => {
                let a = subs@[0];
                let b = subs@[1];
                let pa = print_spec(a);
                let pb = print_spec(b);
                let op = op_token(n);
                assert(op.len() > 0 && plain(op) && op != seq!['!']) by {
                    assert(!char_is_whitespace('+') && !char_is_whitespace('-') && !char_is_whitespace('*'));
                    assert(!char_is_whitespace('/') && !char_is_whitespace('%') && !char_is_whitespace('m'));
                    assert(!char_is_whitespace('a') && !char_is_whitespace('x') && !char_is_whitespace('i'));
                    assert(!char_is_whitespace('n') && !char_is_whitespace('<') && !char_is_whitespace('>'));
                    assert(!char_is_whitespace('=') && !char_is_whitespace('!') && !char_is_whitespace('|'));
                    assert(!char_is_whitespace('&'));
                }
                lemma_trim_plain(op);
                lemma_trim_plain(Seq::<char>::empty());
                let t1 = toks.push(seq!['(']).push(op);
                let s1 = seq!['('] + op + seq![' '];
                lemma_scan_concat((toks, e), seq!['('] + op, seq![' ']);
                lemma_scan_concat((toks, e), seq!['('], op);
                lemma_scan_one((toks, e), '(');
                let st_a = scan_step((toks, e), '(');
                assert(st_a == (toks.push(seq!['(']), e));
                lemma_scan_plain(st_a, op);
                assert(e + op =~= op);
                lemma_scan_one((toks.push(seq!['(']), op), ' ');
                assert(scan_from((toks, e), s1) == (t1, e));
                lemma_scan_print(t1, a);
                let t2 = t1 + tok_spec(a);
                let st_c = scan_from((t1, e), pa);
                lemma_scan_one(st_c, ' ');
                assert(scan_step(st_c, ' ') == (t2, e)) by {
                    if is_atom(a) {
                        lemma_trim_plain(tok_spec(a)[0]);
                        assert(t1.push(tok_spec(a)[0]) =~= t2);
                    }
                }
                lemma_scan_print(t2, b);
                let st_d = scan_from((t2, e), pb);
                lemma_scan_one(st_d, ')');
                let s2 = s1 + pa + seq![' '];
                lemma_scan_concat((toks, e), s1, pa);
                lemma_scan_concat((toks, e), s1 + pa, seq![' ']);
                assert(scan_from((toks, e), s2) == (t2, e));
                lemma_scan_concat((toks, e), s2, pb);
                lemma_scan_concat((toks, e), s2 + pb, seq![')']);
                assert(print_spec(p) =~= s2 + pb + seq![')']);
                if is_atom(b) {
                    lemma_trim_plain(tok_spec(b)[0]);
                    assert(t2.push(tok_spec(b)[0]).push(seq![')']) =~= toks + tok_spec(p));
                } else {
                    assert((t2 + tok_spec(b)).push(seq![')']) =~= toks + tok_spec(p));
                }
            },
        },
        Pattern::G(..) => {},
    }
}

proof fn lemma_tok_len(p: Pattern<CaviarAnalysis>)
    requires
        readable(p),
    ensures
        tok_spec(p).len() > 0,
{
    lemma_scan_print(Seq::empty(), p);
}

/// The tokens of a readable `p`, found at `i`, read as the expression of
/// `p`, ending right after them.
proof fn lemma_read_print(toks: Seq<Seq<char>>, i: int, p: Pattern<CaviarAnalysis>)
    requires
        readable(p),
        0 <= i,
        i + tok_spec(p).len() <= toks.len(),
        toks.subrange(i, i + tok_spec(p).len()) == tok_spec(p),
    ensures
        read_expr(toks, i) == Some((term_of(p), i + tok_spec(p).len())),
    decreases p,
{
    let tp = tok_spec(p);
    let l = tp.len() as int;
    lemma_tok_len(p);
    assert forall|j: int| 0 <= j < l implies toks[i + j] == tp[j] by {
        assert(toks.subrange(i, i + l)[j] == toks[i + j]);
    }
    assert(toks[i] == tp[0]);
    match p {
        Pattern::PVar(v) => {
            assert(tp[0] == v@);
            assert(v@ != seq!['(']);
        },
        Pattern::Node(n, subs) => match n {
            CaviarLang::Constant(c) => {
                lemma_decimal(c);
                assert(tp[0] == decimal(c as int));
                assert(decimal(c as int) != seq!['(']);
            },
            CaviarLang::Symbol(x) => {
                assert(tp[0] == x@);
                assert(x@[0] != '(');
                assert(x@ != seq!['(']);
            },
            CaviarLang::Not(_) => {
                let a = subs@[0];
                let ta = tok_spec(a);
                lemma_tok_len(a);
                assert(tp =~= seq![seq!['('], seq!['!']] + ta + seq![seq![')']]);
                assert(tp[0] == seq!['('] && tp[1] == seq!['!']);
                assert(toks[i + 1] == tp[1]);
                assert(toks[i] == seq!['(']);
                assert(toks[i + 1] == seq!['!']);
                assert(toks.subrange(i + 2, i + 2 + ta.len()) =~= ta) by {
                    assert forall|j: int| 0 <= j < ta.len() implies toks.subrange(i + 2, i + 2 + ta.len())[j] == ta[j] by {
                        assert(toks[i + 2 + j] == tp[2 + j]);
                    }
                }
                lemma_read_print(toks, i + 2, a);
                let k = i + 2 + ta.len();
                assert(toks[k] == tp[2 + ta.len() as int]);
                assert(toks[k] == seq![')']);
            },
            _ => {
                let a = subs@[0];
                let b = subs@[1];
                let ta = tok_spec(a);
                let tb = tok_spec(b);
                lemma_tok_len(a);
                lemma_tok_len(b);
                let op = op_token(n);
                assert(op.len() > 0 && (op.len() != 1 || (op[0] != '!' && op[0] != '(')));
                assert(op != seq!['!'] && op != seq!['(']) by {
                    if op == seq!['!'] {
                        assert(seq!['!'][0] == '!');
                    }
                    if op == seq!['('] {
                        assert(seq!['('][0] == '(');
                    }
                }
                assert(tp =~= seq![seq!['('], op] + ta + tb + seq![seq![')']]);
                assert(tp[0] == seq!['('] && tp[1] == op);
                assert(toks[i + 1] == tp[1]);
                assert(toks[i] == seq!['(']);
                assert(toks[i + 1] == op);
                assert(toks.subrange(i + 2, i + 2 + ta.len()) =~= ta) by {
                    assert forall|j: int| 0 <= j < ta.len() implies toks.subrange(i + 2, i + 2 + ta.len())[j] == ta[j] by {
                        assert(toks[i + 2 + j] == tp[2 + j]);
                    }
                }
                lemma_read_print(toks, i + 2, a);
                let k = i + 2 + ta.len();
                assert(toks.subrange(k, k + tb.len()) =~= tb) by {
                    assert forall|j: int| 0 <= j < tb.len() implies toks.subrange(k, k + tb.len())[j] == tb[j] by {
                        assert(toks[k + j] == tp[2 + ta.len() as int + j]);
                    }
                }
                lemma_read_print(toks, k, b);
                let m = k + tb.len();
                assert(toks[m] == tp[2 + ta.len() + tb.len() as int]);
                assert(toks[m] == seq![')']);
            },
        },
        Pattern::G(..) => {},
    }
}

/// A readable pattern is the expression of its own reading.
proof fn lemma_denotes_term(p: Pattern<CaviarAnalysis>)
    requires
        readable(p),
    ensures
        denotes(p, term_of(p)),
    decreases p,
{
    match p {
        Pattern::Node(n, subs) => match n {
            CaviarLang::Constant(_) => {},
            CaviarLang::Symbol(_) => {},
            CaviarLang::Not(_) => {
                lemma_denotes_term(subs@[0]);
            },
            _ => {
                lemma_denotes_term(subs@[0]);
                lemma_denotes_term(subs@[1]);
            },
        },
        _ => {},
    }
}

/// Reading the text of a readable pattern gives the pattern back: `parse`
/// of `prettyprint(p)` returns a pattern that is `p`'s expression, as `p`
/// itself is.
pub proof fn lemma_print_then_read(p: Pattern<CaviarAnalysis>)
    requires
        readable(p),
    ensures
        read_all(tokens(print_spec(p))) == Some(term_of(p)),
        denotes(p, term_of(p)),
{
    let s = print_spec(p);
    lemma_scan_is_from(s);
    lemma_scan_print(Seq::empty(), p);
    let tp = tok_spec(p);
    lemma_trim_plain(Seq::<char>::empty());
    if is_atom(p) {
        lemma_trim_plain(tp[0]);
        assert(Seq::<Seq<char>>::empty().push(tp[0]) =~= tp);
    } else {
        assert(Seq::<Seq<char>>::empty() + tp =~= tp);
    }
    assert(tokens(s) == tp);
    assert(tp.subrange(0, tp.len() as int) =~= tp);
    lemma_read_print(tp, 0, p);
    lemma_denotes_term(p);
}

proof fn lemma_trim_front(r: Seq<char>) -> (k: int)
    ensures
        0 <= k <= r.len(),
        trim_front(r) == r.skip(k),
        trim_front(r).len() > 0 ==> !char_is_whitespace(trim_front(r)[0]),
    decreases r.len(),
{
    if r.len() > 0 && char_is_whitespace(r[0]) {
        let k = lemma_trim_front(r.drop_first());
        assert(r.drop_first().skip(k) =~= r.skip(k + 1));
        k + 1
    } else {
        assert(r.skip(0) =~= r);
        0
    }
}

proof fn lemma_trim_back(r: Seq<char>) -> (k: int)
    ensures
        0 <= k <= r.len(),
        trim_back(r) == r.take(k),
        trim_back(r).len() > 0 ==> !char_is_whitespace(trim_back(r)[trim_back(r).len() - 1]),
    decreases r.len(),
{
    if r.len() > 0 && char_is_whitespace(r.last()) {
        let k = lemma_trim_back(r.drop_last());
        assert(r.drop_last().take(k) =~= r.take(k));
        k
    } else {
        assert(r.take(r.len() as int) =~= r);
        r.len() as int
    }
}

/// Trimming a run without spaces or parentheses gives a token of its own.
proof fn lemma_trim_unsplit(r: Seq<char>)
    requires
        unsplit(r),
    ensures
        trim(r).len() > 0 ==> plain(trim(r)),
{
    let k1 = lemma_trim_front(r);
    let f = trim_front(r);
    let k2 = lemma_trim_back(f);
    let t = trim(r);
    if t.len() > 0 {
        assert forall|i: int| 0 <= i < t.len() implies #[trigger] t[i] != ' ' && t[i] != '(' && t[i] != ')' by {
            assert(t[i] == f[i]);
            assert(f[i] == r[i + k1]);
        }
        assert(t[0] == f[0]);
    }
}

/// A token of `tokens`: a parenthesis, or one that is `plain`.
pub open spec fn good_token(t: Seq<char>) -> bool {
    t == seq!['('] || t == seq![')'] || (t.len() > 0 && plain(t))
}

proof fn lemma_flush_good(toks: Seq<Seq<char>>, run: Seq<char>)
    requires
        forall|k: int| 0 <= k < toks.len() ==> good_token(#[trigger] toks[k]),
        unsplit(run),
    ensures
        forall|k: int| 0 <= k < flush(toks, run).len() ==> good_token(#[trigger] flush(toks, run)[k]),
{
    lemma_trim_unsplit(run);
    if trim(run).len() > 0 {
        assert forall|k: int| 0 <= k < flush(toks, run).len() implies good_token(#[trigger] flush(toks, run)[k]) by {
            if k < toks.len() {
                assert(flush(toks, run)[k] == toks[k]);
            }
        }
    }
}

/// Every token that `tokens` gives is a parenthesis or a token of its own.
proof fn lemma_scan_good(s: Seq<char>)
    ensures
        forall|k: int| 0 <= k < scan(s).0.len() ==> good_token(#[trigger] scan(s).0[k]),
        unsplit(scan(s).1),
    decreases s.len(),
{
    if s.len() > 0 {
        lemma_scan_good(s.drop_last());
        let (toks, run) = scan(s.drop_last());
        let c = s.last();
        lemma_flush_good(toks, run);
        if c == ' ' {
        } else if c == '(' || c == ')' {
            let f = flush(toks, run);
            assert forall|k: int| 0 <= k < f.push(seq![c]).len() implies good_token(#[trigger] f.push(seq![c])[k]) by {
                if k < f.len() {
                    assert(f.push(seq![c])[k] == f[k]);
                }
            }
        } else {
            assert forall|i: int| 0 <= i < run.push(c).len() implies #[trigger] run.push(c)[i] != ' ' && run.push(c)[i]
                != '(' && run.push(c)[i] != ')' by {
                if i < run.len() {
                    assert(run.push(c)[i] == run[i]);
                }
            }
        }
    } else {
        assert(scan(s).0.len() == 0);
        assert(scan(s).1.len() == 0);
    }
}

proof fn lemma_tokens_good(s: Seq<char>)
    ensures
        forall|k: int| 0 <= k < tokens(s).len() ==> good_token(#[trigger] tokens(s)[k]),
{
    lemma_scan_good(s);
    lemma_flush_good(scan(s).0, scan(s).1);
}

/// The token of the e-node that a token reads as is that token.
proof fn lemma_op_token_of(tok: Seq<char>)
    ensures
        op_of(tok) matches Some(n) ==> op_token(n) == tok,
{
}

/// What reads from well-formed tokens is the expression of a readable
/// pattern.
proof fn lemma_read_readable(toks: Seq<Seq<char>>, i: int, p: Pattern<CaviarAnalysis>, t: Term, k: int)
    requires
        forall|j: int| 0 <= j < toks.len() ==> good_token(#[trigger] toks[j]),
        read_expr(toks, i) == Some((t, k)),
        denotes(p, t),
        !char_is_alphabetic('('),
        !char_is_alphabetic(')'),
    ensures
        readable(p),
        term_of(p) == t,
    decreases toks.len() - i,
{
    let tok = toks[i];
    if tok != seq!['('] {
        assert(good_token(tok));
        if tok == seq![')'] {
            assert(tok[0] == ')');
            assert(!is_digit(')'));
            assert(!all_digits(tok)) by {
                assert(tok.last() == ')');
            }
            assert(parse_i64(tok) is None) by {
                assert(tok.len() == 1);
                if tok[0] == '-' || tok[0] == '+' {
                } else {
                }
            }
        }
        assert(plain(tok));
        match p {
            Pattern::Node(n, ch) => {
                match n {
                    CaviarLang::Symbol(x) => {
                        assert(x@ == tok);
                    },
                    _ => {},
                }
            },
            _ => {},
        }
    } else if toks[i + 1] == seq!['!'] {
        let (a, k1) = read_expr(toks, i + 2)->Some_0;
        match p {
            Pattern::Node(n, ch) => {
                lemma_read_readable(toks, i + 2, ch@[0], a, k1);
            },
            _ => {},
        }
    } else if op_of(toks[i + 1]) is Some {
        lemma_op_token_of(toks[i + 1]);
        let (a, k1) = read_expr(toks, i + 2)->Some_0;
        let (b, k2) = read_expr(toks, k1)->Some_0;
        match p {
            Pattern::Node(n, ch) => {
                lemma_read_readable(toks, i + 2, ch@[0], a, k1);
                lemma_read_readable(toks, k1, ch@[1], b, k2);
            },
            _ => {},
        }
    } else {
        let (a, k1) = read_expr(toks, i + 1)->Some_0;
        lemma_read_readable(toks, i + 1, p, a, k1);
    }
}

/// Printing what was read, and reading it again, gives the same expression:
/// for every text `s` that reads, and every pattern `p` that is its
/// expression (as `parse` returns), `p` is readable and its text reads as
/// `s` does. The premises on parentheses are facts of std's
/// `char::is_alphabetic`, which `char_is_alphabetic` names.
pub proof fn lemma_read_then_print(s: Seq<char>, p: Pattern<CaviarAnalysis>)
    requires
        read_all(tokens(s)) is Some,
        denotes(p, read_all(tokens(s))->Some_0),
        !char_is_alphabetic('('),
        !char_is_alphabetic(')'),
    ensures
        readable(p),
        read_all(tokens(print_spec(p))) == read_all(tokens(s)),
{
    let toks = tokens(s);
    lemma_tokens_good(s);
    let (t, k) = read_expr(toks, 0)->Some_0;
    lemma_read_readable(toks, 0, p, t, k);
    lemma_print_then_read(p);
}

/// Scanning `(op a b)` with the texts of readable `a` and `b` and a plain
/// operator token `op`.
proof fn lemma_scan_bin(toks: Seq<Seq<char>>, op: Seq<char>, a: Pattern<CaviarAnalysis>, b: Pattern<CaviarAnalysis>)
    requires
        readable(a),
        readable(b),
        plain(op),
        op.len() > 0,
    ensures
        scan_from(
            (toks, Seq::empty()),
            seq!['('] + op + seq![' '] + print_spec(a) + seq![' '] + print_spec(b) + seq![')'],
        ) == (toks + (seq![seq!['('], op] + tok_spec(a) + tok_spec(b) + seq![seq![')']]), Seq::<char>::empty()),
{
    let e = Seq::<char>::empty();
    let pa = print_spec(a);
    let pb = print_spec(b);
    lemma_trim_plain(op);
    lemma_trim_plain(Seq::<char>::empty());
    let t1 = toks.push(seq!['(']).push(op);
    let s1 = seq!['('] + op + seq![' '];
    lemma_scan_concat((toks, e), seq!['('] + op, seq![' ']);
    lemma_scan_concat((toks, e), seq!['('], op);
    lemma_scan_one((toks, e), '(');
    let st_a = scan_step((toks, e), '(');
    assert(st_a == (toks.push(seq!['(']), e));
    lemma_scan_plain(st_a, op);
    assert(e + op =~= op);
    lemma_scan_one((toks.push(seq!['(']), op), ' ');
    assert(scan_from((toks, e), s1) == (t1, e));
    lemma_scan_print(t1, a);
    let t2 = t1 + tok_spec(a);
    let st_c = scan_from((t1, e), pa);
    lemma_scan_one(st_c, ' ');
    assert(scan_step(st_c, ' ') == (t2, e)) by {
        if is_atom(a) {
            lemma_trim_plain(tok_spec(a)[0]);
            assert(t1.push(tok_spec(a)[0]) =~= t2);
        }
    }
    lemma_scan_print(t2, b);
    let st_d = scan_from((t2, e), pb);
    lemma_scan_one(st_d, ')');
    let s2 = s1 + pa + seq![' '];
    lemma_scan_concat((toks, e), s1, pa);
    lemma_scan_concat((toks, e), s1 + pa, seq![' ']);
    assert(scan_from((toks, e), s2) == (t2, e));
    lemma_scan_concat((toks, e), s2, pb);
    lemma_scan_concat((toks, e), s2 + pb, seq![')']);
    assert(seq!['('] + op + seq![' '] + pa + seq![' '] + pb + seq![')'] =~= s2 + pb + seq![')']);
    let whole = seq![seq!['('], op] + tok_spec(a) + tok_spec(b) + seq![seq![')']];
    if is_atom(b) {
        lemma_trim_plain(tok_spec(b)[0]);
        assert(t2.push(tok_spec(b)[0]).push(seq![')']) =~= toks + whole);
    } else {
        assert((t2 + tok_spec(b)).push(seq![')']) =~= toks + whole);
    }
}

/// Reading `(op a b)`, with the texts of readable `a` and `b` and an
/// operator token `op`: the e-node of `op` with the expressions of `a`
/// and `b`.
proof fn lemma_read_bin(op: Seq<char>, a: Pattern<CaviarAnalysis>, b: Pattern<CaviarAnalysis>)
    requires
        readable(a),
        readable(b),
        plain(op),
        op.len() > 0,
        op_of(op) is Some,
    ensures
        read_all(tokens(seq!['('] + op + seq![' '] + print_spec(a) + seq![' '] + print_spec(b) + seq![')'])) == Some(
            Term::Bin(op_of(op)->Some_0, Box::new(term_of(a)), Box::new(term_of(b))),
        ),
{
    let text = seq!['('] + op + seq![' '] + print_spec(a) + seq![' '] + print_spec(b) + seq![')'];
    lemma_scan_is_from(text);
    lemma_scan_bin(Seq::empty(), op, a, b);
    lemma_trim_plain(Seq::<char>::empty());
    let ta = tok_spec(a);
    let tb = tok_spec(b);
    let tp = seq![seq!['('], op] + ta + tb + seq![seq![')']];
    assert(Seq::<Seq<char>>::empty() + tp =~= tp);
    assert(tokens(text) == tp);
    lemma_tok_len(a);
    lemma_tok_len(b);
    assert(op != seq!['!']) by {
        if op == seq!['!'] {
            assert(op_of(seq!['!']) is None);
        }
    }
    assert(op != seq!['(']) by {
        if op == seq!['('] {
            assert(op_of(seq!['(']) is None);
        }
    }
    assert(tp[0] == seq!['('] && tp[1] == op);
    assert(tp.subrange(2, 2 + ta.len() as int) =~= ta);
    lemma_read_print(tp, 2, a);
    let k: int = 2 + ta.len() as int;
    assert(tp.subrange(k, k + tb.len() as int) =~= tb);
    lemma_read_print(tp, k, b);
    let m: int = k + tb.len() as int;
    assert(tp[m] == seq![')']);
    assert(m + 1 == tp.len());
}

/// Reading `(! a)` gives the negation of the expression of `a`.
proof fn lemma_read_not(a: Pattern<CaviarAnalysis>)
    requires
        readable(a),
    ensures
        read_all(tokens(seq!['(', '!', ' '] + print_spec(a) + seq![')'])) == Some(Term::Not(Box::new(term_of(a)))),
{
    let text = seq!['(', '!', ' '] + print_spec(a) + seq![')'];
    let e = Seq::<char>::empty();
    let ee = Seq::<Seq<char>>::empty();
    lemma_scan_is_from(text);
    lemma_trim_plain(seq!['!']);
    lemma_trim_plain(e);
    let t1 = ee.push(seq!['(']).push(seq!['!']);
    let s1 = seq!['(', '!', ' '];
    assert(s1 == seq!['('] + seq!['!'] + seq![' ']);
    lemma_scan_concat((ee, e), seq!['('] + seq!['!'], seq![' ']);
    lemma_scan_concat((ee, e), seq!['('], seq!['!']);
    lemma_scan_one((ee, e), '(');
    let st_a = scan_step((ee, e), '(');
    lemma_scan_one(st_a, '!');
    let st_b = scan_step(st_a, '!');
    assert(st_b == (ee.push(seq!['(']), seq!['!'])) by {
        assert(e.push('!') =~= seq!['!']);
    }
    lemma_scan_one(st_b, ' ');
    assert(scan_from((ee, e), s1) == (t1, e));
    let pa = print_spec(a);
    lemma_scan_print(t1, a);
    lemma_scan_concat((ee, e), s1, pa);
    lemma_scan_concat((ee, e), s1 + pa, seq![')']);
    let st_c = scan_from((t1, e), pa);
    lemma_scan_one(st_c, ')');
    let ta = tok_spec(a);
    let tp = seq![seq!['('], seq!['!']] + ta + seq![seq![')']];
    if is_atom(a) {
        lemma_trim_plain(ta[0]);
        assert(t1.push(ta[0]).push(seq![')']) =~= tp);
    } else {
        assert((t1 + ta).push(seq![')']) =~= tp);
    }
    assert(tokens(text) == tp);
    lemma_tok_len(a);
    assert(tp.subrange(2, 2 + ta.len() as int) =~= ta);
    lemma_read_print(tp, 2, a);
    assert(tp[2 + ta.len() as int] == seq![')']);
}

/// What the operator tokens mean: for every two readable operands `a` and
/// `b`, `(op a b)` reads as the e-node named by the token, with the
/// expressions of `a` and `b` as operands.
pub proof fn lemma_read_operator(op: Seq<char>, a: Pattern<CaviarAnalysis>, b: Pattern<CaviarAnalysis>)
    requires
        readable(a),
        readable(b),
        op_of(op) is Some,
    ensures
        read_all(tokens(seq!['('] + op + seq![' '] + print_spec(a) + seq![' '] + print_spec(b) + seq![')'])) matches Some(
            Term::Bin(n, ta, tb),
        ) && *ta == term_of(a) && *tb == term_of(b) && {
            &&& op == seq!['+'] ==> n is Add
            &&& op == seq!['-'] ==> n is Sub
            &&& op == seq!['*'] ==> n is Mul
            &&& op == seq!['/'] ==> n is Div
            &&& op == seq!['%'] ==> n is Mod
            &&& op == seq!['m', 'a', 'x'] ==> n is Max
            &&& op == seq!['m', 'i', 'n'] ==> n is Min
            &&& op == seq!['<'] ==> n is Lt
            &&& op == seq!['>'] ==> n is Gt
            &&& op == seq!['<', '='] ==> n is Let
            &&& op == seq!['>', '='] ==> n is Get
            &&& op == seq!['=', '='] ==> n is Eq
            &&& op == seq!['!', '='] ==> n is IEq
            &&& op == seq!['|', '|'] ==> n is Or
            &&& op == seq!['&', '&'] ==> n is And
        },
{
    assert(op.len() > 0 && plain(op)) by {
        if op.len() == 0 {
            assert(op_of(op) is None);
        }
    }
    lemma_read_bin(op, a, b);
}

/// The characters of the operator tokens.
proof fn lemma_token_literals()
    ensures
        seq!['+'].len() == 1 && seq!['+'][0] == '+',
        seq!['-'].len() == 1 && seq!['-'][0] == '-',
        seq!['*'].len() == 1 && seq!['*'][0] == '*',
        seq!['/'].len() == 1 && seq!['/'][0] == '/',
        seq!['%'].len() == 1 && seq!['%'][0] == '%',
        seq!['m', 'a', 'x'].len() == 3 && seq!['m', 'a', 'x'][0] == 'm' && seq!['m', 'a', 'x'][1] == 'a' && seq!['m', 'a', 'x'][2] == 'x',
        seq!['m', 'i', 'n'].len() == 3 && seq!['m', 'i', 'n'][0] == 'm' && seq!['m', 'i', 'n'][1] == 'i' && seq!['m', 'i', 'n'][2] == 'n',
        seq!['<'].len() == 1 && seq!['<'][0] == '<',
        seq!['>'].len() == 1 && seq!['>'][0] == '>',
        seq!['<', '='].len() == 2 && seq!['<', '='][0] == '<' && seq!['<', '='][1] == '=',
        seq!['>', '='].len() == 2 && seq!['>', '='][0] == '>' && seq!['>', '='][1] == '=',
        seq!['=', '='].len() == 2 && seq!['=', '='][0] == '=' && seq!['=', '='][1] == '=',
        seq!['!', '='].len() == 2 && seq!['!', '='][0] == '!' && seq!['!', '='][1] == '=',
        seq!['|', '|'].len() == 2 && seq!['|', '|'][0] == '|' && seq!['|', '|'][1] == '|',
        seq!['&', '&'].len() == 2 && seq!['&', '&'][0] == '&' && seq!['&', '&'][1] == '&',
        seq!['!'].len() == 1 && seq!['!'][0] == '!',
        seq!['('].len() == 1 && seq!['('][0] == '(',
{
}

/// The operator tokens are plain.
proof fn lemma_op_chars()
    ensures
        !char_is_whitespace('+') && !char_is_whitespace('-') && !char_is_whitespace('*'),
        !char_is_whitespace('/') && !char_is_whitespace('%') && !char_is_whitespace('m'),
        !char_is_whitespace('a') && !char_is_whitespace('x') && !char_is_whitespace('i'),
        !char_is_whitespace('n') && !char_is_whitespace('<') && !char_is_whitespace('>'),
        !char_is_whitespace('=') && !char_is_whitespace('!') && !char_is_whitespace('|'),
        !char_is_whitespace('&'),
{
}

/// The token that `prettyprint` writes for an operator e-node reads back as
/// an e-node of the same operator: the same e-node once given its children.
pub proof fn lemma_op_token_reads_back(n: CaviarLang)
    requires
        n.kids().len() == 2,
    ensures
        op_of(op_token(n)) matches Some(m) && <CaviarAnalysis as Analysis>::same_shape(m, n),
        plain(op_token(n)),
        op_token(n).len() > 0,
{
    lemma_op_chars();
    lemma_token_literals();
    let z = Seq::new(2, |i: int| (Offset(0), Id(0)));
    match n {
        CaviarLang::Add(_) => {
            let m = CaviarLang::Add([nil(), nil()]);
            assert(op_of(op_token(n)) == Some(m));
            assert(m.with_kids(z) == n.with_kids(z));
        },
        CaviarLang::Sub(_) => {
            let m = CaviarLang::Sub([nil(), nil()]);
            assert(op_of(op_token(n)) == Some(m));
            assert(m.with_kids(z) == n.with_kids(z));
        },
        CaviarLang::Mul(_) => {
            let m = CaviarLang::Mul([nil(), nil()]);
            assert(op_of(op_token(n)) == Some(m));
            assert(m.with_kids(z) == n.with_kids(z));
        },
        CaviarLang::Div(_) => {
            let m = CaviarLang::Div([nil(), nil()]);
            assert(op_of(op_token(n)) == Some(m));
            assert(m.with_kids(z) == n.with_kids(z));
        },
        CaviarLang::Mod(_) => {
            let m = CaviarLang::Mod([nil(), nil()]);
            assert(op_of(op_token(n)) == Some(m));
            assert(m.with_kids(z) == n.with_kids(z));
        },
        CaviarLang::Max(_) => {
            let m = CaviarLang::Max([nil(), nil()]);
            assert(op_of(op_token(n)) == Some(m));
            assert(m.with_kids(z) == n.with_kids(z));
        },
        CaviarLang::Min(_) => {
            let m = CaviarLang::Min([nil(), nil()]);
            assert(op_of(op_token(n)) == Some(m));
            assert(m.with_kids(z) == n.with_kids(z));
        },
        CaviarLang::Lt(_) => {
            let m = CaviarLang::Lt([nil(), nil()]);
            assert(op_of(op_token(n)) == Some(m));
            assert(m.with_kids(z) == n.with_kids(z));
        },
        CaviarLang::Gt(_) => {
            let m = CaviarLang::Gt([nil(), nil()]);
            assert(op_of(op_token(n)) == Some(m));
            assert(m.with_kids(z) == n.with_kids(z));
        },
        CaviarLang::Let(_) => {
            let m = CaviarLang::Let([nil(), nil()]);
            assert(op_of(op_token(n)) == Some(m));
            assert(m.with_kids(z) == n.with_kids(z));
        },
        CaviarLang::Get(_) => {
            let m = CaviarLang::Get([nil(), nil()]);
            assert(op_of(op_token(n)) == Some(m));
            assert(m.with_kids(z) == n.with_kids(z));
        },
        CaviarLang::Eq(_) => {
            let m = CaviarLang::Eq([nil(), nil()]);
            assert(op_of(op_token(n)) == Some(m));
            assert(m.with_kids(z) == n.with_kids(z));
        },
        CaviarLang::IEq(_) => {
            let m = CaviarLang::IEq([nil(), nil()]);
            assert(op_of(op_token(n)) == Some(m));
            assert(m.with_kids(z) == n.with_kids(z));
        },
        CaviarLang::Or(_) => {
            let m = CaviarLang::Or([nil(), nil()]);
            assert(op_of(op_token(n)) == Some(m));
            assert(m.with_kids(z) == n.with_kids(z));
        },
        CaviarLang::And(_) => {
            let m = CaviarLang::And([nil(), nil()]);
            assert(op_of(op_token(n)) == Some(m));
            assert(m.with_kids(z) == n.with_kids(z));
        },
        _ => {},
    }
}

/// The operator text that `CaviarAnalysis::prettyprint` writes for an
/// e-node reads back as an e-node of the same operator.
pub proof fn lemma_op_text_reads_back(n: CaviarLang)
    requires
        n.kids().len() == 2,
    ensures
        op_of(op_text(n)) matches Some(m) && <CaviarAnalysis as Analysis>::same_shape(m, n),
        plain(op_text(n)),
        op_text(n).len() > 0,
{
    lemma_op_chars();
    lemma_token_literals();
    let z = Seq::new(2, |i: int| (Offset(0), Id(0)));
    match n {
        CaviarLang::Add(_) => {
            let m = CaviarLang::Add([nil(), nil()]);
            assert(op_of(op_text(n)) == Some(m));
            assert(m.with_kids(z) == n.with_kids(z));
        },
        CaviarLang::Sub(_) => {
            let m = CaviarLang::Sub([nil(), nil()]);
            assert(op_of(op_text(n)) == Some(m));
            assert(m.with_kids(z) == n.with_kids(z));
        },
        CaviarLang::Mul(_) => {
            let m = CaviarLang::Mul([nil(), nil()]);
            assert(op_of(op_text(n)) == Some(m));
            assert(m.with_kids(z) == n.with_kids(z));
        },
        CaviarLang::Div(_) => {
            let m = CaviarLang::Div([nil(), nil()]);
            assert(op_of(op_text(n)) == Some(m));
            assert(m.with_kids(z) == n.with_kids(z));
        },
        CaviarLang::Mod(_) => {
            let m = CaviarLang::Mod([nil(), nil()]);
            assert(op_of(op_text(n)) == Some(m));
            assert(m.with_kids(z) == n.with_kids(z));
        },
        CaviarLang::Max(_) => {
            let m = CaviarLang::Max([nil(), nil()]);
            assert(op_of(op_text(n)) == Some(m));
            assert(m.with_kids(z) == n.with_kids(z));
        },
        CaviarLang::Min(_) => {
            let m = CaviarLang::Min([nil(), nil()]);
            assert(op_of(op_text(n)) == Some(m));
            assert(m.with_kids(z) == n.with_kids(z));
        },
        CaviarLang::Lt(_) => {
            let m = CaviarLang::Lt([nil(), nil()]);
            assert(op_of(op_text(n)) == Some(m));
            assert(m.with_kids(z) == n.with_kids(z));
        },
        CaviarLang::Gt(_) => {
            let m = CaviarLang::Gt([nil(), nil()]);
            assert(op_of(op_text(n)) == Some(m));
            assert(m.with_kids(z) == n.with_kids(z));
        },
        CaviarLang::Let(_) => {
            let m = CaviarLang::Let([nil(), nil()]);
            assert(op_of(op_text(n)) == Some(m));
            assert(m.with_kids(z) == n.with_kids(z));
        },
        CaviarLang::Get(_) => {
            let m = CaviarLang::Get([nil(), nil()]);
            assert(op_of(op_text(n)) == Some(m));
            assert(m.with_kids(z) == n.with_kids(z));
        },
        CaviarLang::Eq(_) => {
            let m = CaviarLang::Eq([nil(), nil()]);
            assert(op_of(op_text(n)) == Some(m));
            assert(m.with_kids(z) == n.with_kids(z));
        },
        CaviarLang::IEq(_) => {
            let m = CaviarLang::IEq([nil(), nil()]);
            assert(op_of(op_text(n)) == Some(m));
            assert(m.with_kids(z) == n.with_kids(z));
        },
        CaviarLang::Or(_) => {
            let m = CaviarLang::Or([nil(), nil()]);
            assert(op_of(op_text(n)) == Some(m));
            assert(m.with_kids(z) == n.with_kids(z));
        },
        CaviarLang::And(_) => {
            let m = CaviarLang::And([nil(), nil()]);
            assert(op_of(op_text(n)) == Some(m));
            assert(m.with_kids(z) == n.with_kids(z));
        },
        _ => {},
    }
}

/// Reading what `CaviarAnalysis::prettyprint` writes for an e-node, its
/// children written as the texts of readable patterns, gives back an
/// e-node of the same operator with their expressions as operands.
pub proof fn lemma_pretty_reads_back(n: CaviarLang, a: Pattern<CaviarAnalysis>, b: Pattern<CaviarAnalysis>)
    requires
        readable(a),
        readable(b),
    ensures
        n.kids().len() == 2 ==> (read_all(tokens(pretty(n, seq![print_spec(a), print_spec(b)]))) matches Some(
            Term::Bin(m, ta, tb),
        ) && <CaviarAnalysis as Analysis>::same_shape(m, n) && *ta == term_of(a) && *tb == term_of(b)),
        n is Not ==> read_all(tokens(pretty(n, seq![print_spec(a)]))) == Some(Term::Not(Box::new(term_of(a)))),
{
    if n.kids().len() == 2 {
        lemma_op_text_reads_back(n);
        let cs = seq![print_spec(a), print_spec(b)];
        assert(!(n is Not) && !(n is Constant) && !(n is Symbol));
        assert(pretty(n, cs) =~= seq!['('] + op_text(n) + seq![' '] + print_spec(a) + seq![' '] + print_spec(b) + seq![
            ')',
        ]);
        lemma_read_bin(op_text(n), a, b);
    }
    if n is Not {
        let cs = seq![print_spec(a)];
        assert(pretty(n, cs) =~= seq!['(', '!', ' '] + print_spec(a) + seq![')']);
        lemma_read_not(a);
    }
}

} // verus!
