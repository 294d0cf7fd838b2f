//! Plain-text rendering of expressions.
use crate::literal::{lit_text, literal_text};
use crate::syms::{terms_of, Operation, Sym, Term};
use vstd::prelude::*;
use vstd::string::StrSliceExecFns;

verus! {

/// The infix text of an expression.
pub open spec fn text(t: Term) -> Seq<char>
    decreases t, 0nat,
{
    match t {
        Term::Number(b) => lit_text(b),
        Term::Identifier(name) => name,
        Term::Constant(_) => seq!['p', 'i'],
        Term::Sqrt(s) => seq!['s', 'q', 'r', 't', '('] + text(*s) + seq![')'],
        Term::Add(a, b) => seq!['('] + text(*a) + seq!['+'] + text(*b) + seq![')'],
        Term::Sum(v) => seq!['('] + joined(v, '+', v.len()) + seq![')'],
        Term::Sub(a, b) => seq!['('] + text(*a) + seq!['-'] + text(*b) + seq![')'],
        Term::UnSub(s) => seq!['-'] + text(*s),
        Term::Div(a, b) => seq!['('] + text(*a) + seq!['/'] + text(*b) + seq![')'],
        Term::Mul(a, b) => seq!['('] + text(*a) + seq!['*'] + text(*b) + seq![')'],
        Term::Prod(v) => seq!['('] + joined(v, '*', v.len()) + seq![')'],
        Term::Rem(a, b) => text(*a) + seq!['%'] + text(*b),
        Term::Cos(s) => seq!['c', 'o', 's', '('] + text(*s) + seq![')'],
        Term::Sin(s) => seq!['s', 'i', 'n', '('] + text(*s) + seq![')'],
        Term::Nop(s) => text(*s),
    }
}

/// The texts of the first `n` operands, with `sep` between neighbours.
pub open spec fn joined(v: Seq<Term>, sep: char, n: nat) -> Seq<char>
    decreases v, n,
{
    if n == 0 || n > v.len() {
        Seq::empty()
    } else if n == 1 {
        text(v[0])
    } else {
        joined(v, sep, (n - 1) as nat) + seq![sep] + text(v[n - 1])
    }
}

/// Appends the characters of a name.
pub fn push_name(out: &mut Vec<char>, name: &str)
    ensures
        final(out)@ == old(out)@ + name@,
{
    let n = name.unicode_len();
    let mut i: usize = 0;
    while i < n
        invariant
            i <= n == name@.len(),
            out@ == old(out)@ + name@.take(i as int),
        decreases n - i,
    {
        out.push(name.get_char(i));
        i += 1;
        assert(out@ =~= old(out)@ + name@.take(i as int));
    }
    assert(name@.take(n as int) =~= name@);
}

/// Appends the text of an expression.
pub fn push_text(out: &mut Vec<char>, s: &Sym)
    ensures
        final(out)@ == old(out)@ + text(s@),
    decreases s, 0nat,
{
    match s {
        Sym::Number(b) => {
            let mut digits = literal_text(*b);
            out.append(&mut digits);
        },
        Sym::Identifier(name) => {
            push_name(out, name);
        },
        Sym::Constant(_) => {
            out.push('p');
            out.push('i');
            assert(out@ =~= old(out)@ + text(s@));
        },
        Sym::Operation(o) => {
            push_operation_text(out, o);
        },
    }
}

fn push_joined(out: &mut Vec<char>, v: &Vec<Sym>, sign: char)
    ensures
        final(out)@ == old(out)@ + seq!['('] + joined(terms_of(v@), sign, v@.len()) + seq![')'],
    decreases v, 1nat,
{
    let ghost terms = terms_of(v@);
    out.push('(');
    let mut i: usize = 0;
    while i < v.len()
        invariant
            i <= v.len(),
            terms == terms_of(v@),
            out@ == old(out)@ + seq!['('] + joined(terms, sign, i as nat),
        decreases v.len() - i,
    {
        if i > 0 {
            out.push(sign);
        }
        push_text(out, &v[i]);
        i += 1;
        assert(out@ =~= old(out)@ + seq!['('] + joined(terms, sign, i as nat));
    }
    out.push(')');
}

/// Appends the text of a compound expression.
pub fn push_operation_text(out: &mut Vec<char>, o: &Operation)
    ensures
        final(out)@ == old(out)@ + text(o@),
    decreases o, 0nat,
{
    match o {
        Operation::Sqrt(s) => {
            out.push('s');
            out.push('q');
            out.push('r');
            out.push('t');
            out.push('(');
            push_text(out, s);
            out.push(')');
        },
        Operation::Add(a, b) => {
            out.push('(');
            push_text(out, a);
            out.push('+');
            push_text(out, b);
            out.push(')');
        },
        Operation::Sum(v) => {
            push_joined(out, v, '+');
        },
        Operation::Sub(a, b) => {
            out.push('(');
            push_text(out, a);
            out.push('-');
            push_text(out, b);
            out.push(')');
        },
        Operation::UnSub(s) => {
            out.push('-');
            push_text(out, s);
        },
        Operation::Div(a, b) => {
            out.push('(');
            push_text(out, a);
            out.push('/');
            push_text(out, b);
            out.push(')');
        },
        Operation::Mul(a, b) => {
            out.push('(');
            push_text(out, a);
            out.push('*');
            push_text(out, b);
            out.push(')');
        },
        Operation::Prod(v) => {
            push_joined(out, v, '*');
        },
        Operation::Rem(a, b) => {
            push_text(out, a);
            out.push('%');
            push_text(out, b);
        },
        Operation::Cos(s) => {
            out.push('c');
            out.push('o');
            out.push('s');
            out.push('(');
            push_text(out, s);
            out.push(')');
        },
        Operation::Sin(s) => {
            out.push('s');
            out.push('i');
            out.push('n');
            out.push('(');
            push_text(out, s);
            out.push(')');
        },
        Operation::Nop(s) => {
            push_text(out, s);
        },
    }
    assert(out@ =~= old(out)@ + text(o@));
}

impl Sym {
    /// The infix text of this expression.
    pub fn to_text(&self) -> (r: String)
        ensures
            r@ == text(self@),
    {
        let mut out: Vec<char> = Vec::new();
        push_text(&mut out, self);
        assert(out@ =~= text(self@));
        crate::decore::string_of(&out)
    }
}

impl Operation {
    /// The infix text of this compound expression.
    pub fn to_text(&self) -> (r: String)
        ensures
            r@ == text(self@),
    {
        let mut out: Vec<char> = Vec::new();
        push_operation_text(&mut out, self);
        assert(out@ =~= text(self@));
        crate::decore::string_of(&out)
    }
}

} // verus!
