//! Renderings for people: LaTeX, and Matlab source.
use crate::literal::{lit_text, literal_text};
use crate::display::push_name;
use crate::syms::{terms_of, Constant, Operation, Sym, Term};
use vstd::prelude::*;

verus! {

/// `String::push` appends one character to the string.
pub assume_specification[ String::push ](s: &mut String, c: char)
    ensures
        final(s)@ == old(s)@.push(c),
;

/// The string of a list of characters.
pub fn string_of(chars: &Vec<char>) -> (r: String)
    ensures
        r@ == chars@,
{
    let mut r = String::new();
    let mut i: usize = 0;
    while i < chars.len()
        invariant
            i <= chars.len(),
            r@ == chars@.take(i as int),
        decreases chars.len() - i,
    {
        r.push(chars[i]);
        i += 1;
        assert(r@ =~= chars@.take(i as int));
    }
    assert(chars@.take(chars.len() as int) =~= chars@);
    r
}

/// A value that can be written as a Matlab assignment.
pub trait ToMatlab {
    /// The Matlab source that assigns this value to `identifier`.
    spec fn matlab(&self, identifier: &'static str) -> Seq<char>;

    fn to_matlab(&self, identifier: &'static str) -> (r: String)
        ensures
            r@ == self.matlab(identifier),
    ;
}

/// A value that can be written as LaTeX.
pub trait ToTex {
    /// The LaTeX source of this value, labelled with `identifier` where the
    /// value takes a label.
    spec fn tex(&self, identifier: Option<&'static str>) -> Seq<char>;

    fn to_tex(&self, identifier: Option<&'static str>) -> (r: String)
        ensures
            r@ == self.tex(identifier),
    ;
}

/// `\left(`
pub open spec fn open_bracket() -> Seq<char> {
    seq!['\\', 'l', 'e', 'f', 't', '(']
}

/// `\right)`
pub open spec fn close_bracket() -> Seq<char> {
    seq!['\\', 'r', 'i', 'g', 'h', 't', ')']
}

/// ` \cdot `
pub open spec fn dot_sign() -> Seq<char> {
    seq![' ', '\\', 'c', 'd', 'o', 't', ' ']
}

/// Whether the LaTeX of an expression is an operand list that needs
/// brackets inside a larger expression. A mark changes nothing.
pub open spec fn needs_brackets(t: Term) -> bool
    decreases t,
{
    match t {
        Term::Nop(s) => needs_brackets(*s),
        _ => t is Add || t is Sum || t is Sub || t is Mul || t is Prod || t is Rem,
    }
}

/// The LaTeX of an expression; `top` says that it stands alone or inside
/// delimiters of its own, and takes no brackets.
pub open spec fn tex_of(t: Term, top: bool) -> Seq<char>
    decreases t, 1nat,
{
    if needs_brackets(t) && !top {
        open_bracket() + tex_body(t) + close_bracket()
    } else {
        tex_body(t)
    }
}

/// The LaTeX of an expression without brackets around it.
pub open spec fn tex_body(t: Term) -> Seq<char>
    decreases t, 0nat,
{
    match t {
        Term::Number(b) => lit_text(b),
        Term::Identifier(name) => name,
        Term::Constant(_) => seq!['\\', 'p', 'i'],
        Term::Sqrt(s) => seq![' ', '\\', 's', 'q', 'r', 't', '{'] + tex_of(*s, true) + seq![
            '}',
            ' ',
        ],
        Term::Add(a, b) => seq![' '] + tex_of(*a, false) + seq!['+'] + tex_of(*b, false) + seq![
            ' ',
        ],
        Term::Sum(v) => seq![' '] + tex_joined(v, seq!['+'], v.len()) + seq![' '],
        Term::Sub(a, b) => seq![' '] + tex_of(*a, false) + seq!['-'] + tex_of(*b, false) + seq![
            ' ',
        ],
        Term::UnSub(s) => seq!['-'] + tex_of(*s, false),
        Term::Div(a, b) => seq![' ', '\\', 'f', 'r', 'a', 'c', '{'] + tex_of(*a, true) + seq![
            '}',
            '{',
        ] + tex_of(*b, true) + seq!['}', ' '],
        Term::Mul(a, b) => seq![' '] + tex_of(*a, false) + dot_sign() + tex_of(*b, false) + seq![
            ' ',
        ],
        Term::Prod(v) => seq![' '] + tex_joined(v, dot_sign(), v.len()) + seq![' '],
        Term::Rem(a, b) => seq![' '] + tex_of(*a, false) + seq!['\\', '%'] + tex_of(*b, false)
            + seq![' '],
        Term::Cos(s) => seq![' ', 'c', 'o', 's'] + open_bracket() + tex_of(*s, true)
            + close_bracket() + seq![' '],
        Term::Sin(s) => seq![' ', 's', 'i', 'n'] + open_bracket() + tex_of(*s, true)
            + close_bracket() + seq![' '],
        Term::Nop(s) => tex_body(*s),
    }
}

/// The LaTeX of the first `n` operands, with `sep` between neighbours.
pub open spec fn tex_joined(v: Seq<Term>, sep: Seq<char>, n: nat) -> Seq<char>
    decreases v, n,
{
    if n == 0 || n > v.len() {
        Seq::empty()
    } else if n == 1 {
        tex_of(v[0], false)
    } else {
        tex_joined(v, sep, (n - 1) as nat) + sep + tex_of(v[n - 1], false)
    }
}

fn push_all(out: &mut Vec<char>, letters: &Vec<char>)
    ensures
        final(out)@ == old(out)@ + letters@,
{
    let mut i: usize = 0;
    while i < letters.len()
        invariant
            i <= letters.len(),
            out@ == old(out)@ + letters@.take(i as int),
        decreases letters.len() - i,
    {
        out.push(letters[i]);
        i += 1;
        assert(out@ =~= old(out)@ + letters@.take(i as int));
    }
    assert(letters@.take(letters.len() as int) =~= letters@);
}

fn push_open(out: &mut Vec<char>)
    ensures
        final(out)@ == old(out)@ + open_bracket(),
{
    let letters = vec!['\\', 'l', 'e', 'f', 't', '('];
    assert(letters@ =~= open_bracket());
    push_all(out, &letters);
}

fn push_close(out: &mut Vec<char>)
    ensures
        final(out)@ == old(out)@ + close_bracket(),
{
    let letters = vec!['\\', 'r', 'i', 'g', 'h', 't', ')'];
    assert(letters@ =~= close_bracket());
    push_all(out, &letters);
}

fn push_dot(out: &mut Vec<char>)
    ensures
        final(out)@ == old(out)@ + dot_sign(),
{
    let letters = vec![' ', '\\', 'c', 'd', 'o', 't', ' '];
    assert(letters@ =~= dot_sign());
    push_all(out, &letters);
}

fn takes_brackets(s: &Sym) -> (r: bool)
    ensures
        r == needs_brackets(s@),
    decreases s,
{
    match s {
        Sym::Operation(o) => match &**o {
            Operation::Add(_, _) => true,
            Operation::Sum(_) => true,
            Operation::Sub(_, _) => true,
            Operation::Mul(_, _) => true,
            Operation::Prod(_) => true,
            Operation::Rem(_, _) => true,
            Operation::Nop(inner) => takes_brackets(inner),
            _ => false,
        },
        _ => false,
    }
}

fn push_body(out: &mut Vec<char>, s: &Sym)
    ensures
        final(out)@ == old(out)@ + tex_body(s@),
    decreases s, 0nat,
{
    match s {
        Sym::Number(b) => {
            let mut digits = literal_text(*b);
            out.append(&mut digits);
        },
        Sym::Identifier(name) => {
            push_name(out, name);
        },
        Sym::Constant(_) => {
            out.push('\\');
            out.push('p');
            out.push('i');
            assert(out@ =~= old(out)@ + tex_body(s@));
        },
        Sym::Operation(o) => {
            push_operation_tex(out, o);
        },
    }
}

/// Appends the LaTeX of an expression.
pub fn push_tex(out: &mut Vec<char>, s: &Sym, top: bool)
    ensures
        final(out)@ == old(out)@ + tex_of(s@, top),
    decreases s, 1nat,
{
    let wrap = takes_brackets(s) && !top;
    if wrap {
        push_open(out);
    }
    push_body(out, s);
    if wrap {
        push_close(out);
    }
    assert(out@ =~= old(out)@ + tex_of(s@, top));
}

fn push_tex_joined(out: &mut Vec<char>, v: &Vec<Sym>, dots: bool)
    ensures
        final(out)@ == old(out)@ + tex_joined(
            terms_of(v@),
            if dots {
                dot_sign()
            } else {
                seq!['+']
            },
            v@.len(),
        ),
    decreases v, 2nat,
{
    let ghost terms = terms_of(v@);
    let ghost sep = if dots {
        dot_sign()
    } else {
        seq!['+']
    };
    let mut i: usize = 0;
    assert(out@ =~= old(out)@ + tex_joined(terms, sep, 0));
    while i < v.len()
        invariant
            i <= v.len(),
            terms == terms_of(v@),
            sep == (if dots {
                dot_sign()
            } else {
                seq!['+']
            }),
            out@ == old(out)@ + tex_joined(terms, sep, i as nat),
        decreases v.len() - i,
    {
        if i > 0 {
            if dots {
                push_dot(out);
            } else {
                out.push('+');
            }
        }
        push_tex(out, &v[i], false);
        i += 1;
        assert(out@ =~= old(out)@ + tex_joined(terms, sep, i as nat));
    }
}

/// Appends the LaTeX of a compound expression, without brackets around it.
pub fn push_operation_tex(out: &mut Vec<char>, o: &Operation)
    ensures
        final(out)@ == old(out)@ + tex_body(o@),
    decreases o, 0nat,
{
    match o {
        Operation::Sqrt(s) => {
            let head = vec![' ', '\\', 's', 'q', 'r', 't', '{'];
            push_all(out, &head);
            push_tex(out, s, true);
            out.push('}');
            out.push(' ');
        },
        Operation::Add(a, b) => {
            out.push(' ');
            push_tex(out, a, false);
            out.push('+');
            push_tex(out, b, false);
            out.push(' ');
        },
        Operation::Sum(v) => {
            out.push(' ');
            push_tex_joined(out, v, false);
            out.push(' ');
        },
        Operation::Sub(a, b) => {
            out.push(' ');
            push_tex(out, a, false);
            out.push('-');
            push_tex(out, b, false);
            out.push(' ');
        },
        Operation::UnSub(s) => {
            out.push('-');
            push_tex(out, s, false);
        },
        Operation::Div(a, b) => {
            let head = vec![' ', '\\', 'f', 'r', 'a', 'c', '{'];
            push_all(out, &head);
            push_tex(out, a, true);
            out.push('}');
            out.push('{');
            push_tex(out, b, true);
            out.push('}');
            out.push(' ');
        },
        Operation::Mul(a, b) => {
            out.push(' ');
            push_tex(out, a, false);
            push_dot(out);
            push_tex(out, b, false);
            out.push(' ');
        },
        Operation::Prod(v) => {
            out.push(' ');
            push_tex_joined(out, v, true);
            out.push(' ');
        },
        Operation::Rem(a, b) => {
            out.push(' ');
            push_tex(out, a, false);
            out.push('\\');
            out.push('%');
            push_tex(out, b, false);
            out.push(' ');
        },
        Operation::Cos(s) => {
            out.push(' ');
            out.push('c');
            out.push('o');
            out.push('s');
            push_open(out);
            push_tex(out, s, true);
            push_close(out);
            out.push(' ');
        },
        Operation::Sin(s) => {
            out.push(' ');
            out.push('s');
            out.push('i');
            out.push('n');
            push_open(out);
            push_tex(out, s, true);
            push_close(out);
            out.push(' ');
        },
        Operation::Nop(s) => {
            push_body(out, s);
        },
    }
    assert(out@ =~= old(out)@ + tex_body(o@));
}

impl ToTex for Constant {
    open spec fn tex(&self, identifier: Option<&'static str>) -> Seq<char> {
        seq!['\\', 'p', 'i']
    }

    fn to_tex(&self, identifier: Option<&'static str>) -> (r: String) {
        let letters = vec!['\\', 'p', 'i'];
        assert(letters@ =~= seq!['\\', 'p', 'i']);
        string_of(&letters)
    }
}

impl ToTex for Operation {
    open spec fn tex(&self, identifier: Option<&'static str>) -> Seq<char> {
        tex_of(self@, true)
    }

    fn to_tex(&self, identifier: Option<&'static str>) -> (r: String) {
        let mut out: Vec<char> = Vec::new();
        push_operation_tex(&mut out, self);
        assert(out@ =~= tex_of(self@, true));
        string_of(&out)
    }
}

impl ToTex for Sym {
    open spec fn tex(&self, identifier: Option<&'static str>) -> Seq<char> {
        tex_of(self@, true)
    }

    fn to_tex(&self, identifier: Option<&'static str>) -> (r: String) {
        let mut out: Vec<char> = Vec::new();
        push_tex(&mut out, self, true);
        assert(out@ =~= tex_of(self@, true));
        string_of(&out)
    }
}

} // verus!
