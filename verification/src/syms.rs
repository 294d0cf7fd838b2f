//! Expressions.
//!
//! An expression owns its operands: it is a tree, with no sharing and no
//! cycles. Two expressions are equal if they are the same tree with the same
//! leaves.
use crate::literal::{lit_equal, literal_equal};
use vstd::prelude::*;

verus! {

/// A named mathematical constant.
#[derive(Clone, Copy, Debug, PartialEq, Eq, Structural)]
pub enum Constant {
    /// The ratio of a circle's circumference to its diameter.
    Pi,
}

/// The operator of a compound expression, together with its operands.
#[derive(Debug, PartialEq)]
pub enum Operation {
    /// The square root of the operand.
    Sqrt(Sym),
    /// The first operand plus the second.
    Add(Sym, Sym),
    /// All operands added up.
    Sum(Vec<Sym>),
    /// The first operand minus the second.
    Sub(Sym, Sym),
    /// The operand with its sign changed.
    UnSub(Sym),
    /// The first operand divided by the second.
    Div(Sym, Sym),
    /// The first operand times the second.
    Mul(Sym, Sym),
    /// All operands multiplied.
    Prod(Vec<Sym>),
    /// What is left of the first operand divided by the second.
    Rem(Sym, Sym),
    /// The cosine of the operand.
    Cos(Sym),
    /// The sine of the operand.
    Sin(Sym),
    /// The operand itself, marked as reduced: the simplifier leaves it as
    /// it is.
    Nop(Sym),
}

/// A symbolic expression.
#[derive(Debug, PartialEq)]
pub enum Sym {
    /// A literal: a single-precision number, held as its bit pattern.
    Number(u32),
    /// A symbol, known by its name.
    Identifier(&'static str),
    /// A compound expression.
    Operation(Box<Operation>),
    /// A named constant.
    Constant(Constant),
}

/// The mathematical value of an expression: a finite tree, with the same
/// forms as [`Sym`] and [`Operation`].
pub ghost enum Term {
    Number(u32),
    Identifier(Seq<char>),
    Constant(Constant),
    Sqrt(Box<Term>),
    Add(Box<Term>, Box<Term>),
    Sum(Seq<Term>),
    Sub(Box<Term>, Box<Term>),
    UnSub(Box<Term>),
    Div(Box<Term>, Box<Term>),
    Mul(Box<Term>, Box<Term>),
    Prod(Seq<Term>),
    Rem(Box<Term>, Box<Term>),
    Cos(Box<Term>),
    Sin(Box<Term>),
    Nop(Box<Term>),
}

/// The value of an expression.
pub open spec fn sym_term(s: Sym) -> Term
    decreases s,
{
    match s {
        Sym::Number(b) => Term::Number(b),
        Sym::Identifier(name) => Term::Identifier(name@),
        Sym::Constant(c) => Term::Constant(c),
        Sym::Operation(o) => op_term(*o),
    }
}

/// The values of a list of expressions, in order.
pub open spec fn terms_of(v: Seq<Sym>) -> Seq<Term>
    decreases v,
{
    Seq::new(
        v.len(),
        |i: int|
            if 0 <= i < v.len() {
                sym_term(v[i])
            } else {
                Term::Number(0)
            },
    )
}

/// The value of a compound expression.
pub open spec fn op_term(o: Operation) -> Term
    decreases o,
{
    match o {
        Operation::Sqrt(s) => Term::Sqrt(Box::new(sym_term(s))),
        Operation::Add(a, b) => Term::Add(Box::new(sym_term(a)), Box::new(sym_term(b))),
        Operation::Sum(v) => Term::Sum(terms_of(v@)),
        Operation::Sub(a, b) => Term::Sub(Box::new(sym_term(a)), Box::new(sym_term(b))),
        Operation::UnSub(s) => Term::UnSub(Box::new(sym_term(s))),
        Operation::Div(a, b) => Term::Div(Box::new(sym_term(a)), Box::new(sym_term(b))),
        Operation::Mul(a, b) => Term::Mul(Box::new(sym_term(a)), Box::new(sym_term(b))),
        Operation::Prod(v) => Term::Prod(terms_of(v@)),
        Operation::Rem(a, b) => Term::Rem(Box::new(sym_term(a)), Box::new(sym_term(b))),
        Operation::Cos(s) => Term::Cos(Box::new(sym_term(s))),
        Operation::Sin(s) => Term::Sin(Box::new(sym_term(s))),
        Operation::Nop(s) => Term::Nop(Box::new(sym_term(s))),
    }
}

impl View for Sym {
    type V = Term;

    open spec fn view(&self) -> Term {
        sym_term(*self)
    }
}

impl View for Operation {
    type V = Term;

    open spec fn view(&self) -> Term {
        op_term(*self)
    }
}

impl Sym {
    /// An independent copy of this expression.
    pub fn duplicate(&self) -> (r: Self)
        ensures
            r@ == self@,
        decreases self,
    {
        match self {
            Sym::Number(b) => Sym::Number(*b),
            Sym::Identifier(s) => Sym::Identifier(*s),
            Sym::Constant(c) => Sym::Constant(*c),
            Sym::Operation(o) => Sym::Operation(Box::new(o.duplicate())),
        }
    }
}

/// Copies a list of expressions.
pub fn duplicate_all(v: &Vec<Sym>) -> (r: Vec<Sym>)
    ensures
        terms_of(r@) == terms_of(v@),
    decreases v,
{
    let mut r: Vec<Sym> = Vec::new();
    let mut i: usize = 0;
    while i < v.len()
        invariant
            i <= v.len(),
            r@.len() == i,
            forall|j: int| 0 <= j < i ==> r@[j]@ == v@[j]@,
        decreases v.len() - i,
    {
        r.push(v[i].duplicate());
        i += 1;
    }
    assert(terms_of(r@) =~= terms_of(v@));
    r
}

impl Operation {
    /// An independent copy of this compound expression.
    pub fn duplicate(&self) -> (r: Self)
        ensures
            r@ == self@,
        decreases self,
    {
        match self {
            Operation::Sqrt(s) => Operation::Sqrt(s.duplicate()),
            Operation::Add(a, b) => Operation::Add(a.duplicate(), b.duplicate()),
            Operation::Sum(v) => Operation::Sum(duplicate_all(v)),
            Operation::Sub(a, b) => Operation::Sub(a.duplicate(), b.duplicate()),
            Operation::UnSub(s) => Operation::UnSub(s.duplicate()),
            Operation::Div(a, b) => Operation::Div(a.duplicate(), b.duplicate()),
            Operation::Mul(a, b) => Operation::Mul(a.duplicate(), b.duplicate()),
            Operation::Prod(v) => Operation::Prod(duplicate_all(v)),
            Operation::Rem(a, b) => Operation::Rem(a.duplicate(), b.duplicate()),
            Operation::Cos(s) => Operation::Cos(s.duplicate()),
            Operation::Sin(s) => Operation::Sin(s.duplicate()),
            Operation::Nop(s) => Operation::Nop(s.duplicate()),
        }
    }
}

/// Whether two names are the same text.
pub fn same_name(a: &str, b: &str) -> (r: bool)
    ensures
        r == (a@ == b@),
{
    broadcast use {vstd::utf8::encode_utf8_decode_utf8, vstd::utf8::encode_utf8_valid_utf8};

    let x = a.as_bytes();
    let y = b.as_bytes();
    if x.len() != y.len() {
        return false;
    }
    let mut i: usize = 0;
    while i < x.len()
        invariant
            i <= x.len() == y.len(),
            x@ == vstd::utf8::encode_utf8(a@),
            y@ == vstd::utf8::encode_utf8(b@),
            forall|j: int| 0 <= j < i ==> x@[j] == y@[j],
        decreases x.len() - i,
    {
        if x[i] != y[i] {
            return false;
        }
        i += 1;
    }
    assert(x@ =~= y@);
    assert(vstd::utf8::decode_utf8(vstd::utf8::encode_utf8(a@)) == a@);
    assert(vstd::utf8::decode_utf8(vstd::utf8::encode_utf8(b@)) == b@);
    true
}

/// Whether two lists hold the same expressions in the same order.
pub fn all_equal(a: &Vec<Sym>, b: &Vec<Sym>) -> (r: bool)
    ensures
        r == (terms_of(a@) == terms_of(b@)),
    decreases a, 1nat,
{
    if a.len() != b.len() {
        assert(terms_of(a@).len() != terms_of(b@).len());
        return false;
    }
    let mut i: usize = 0;
    while i < a.len()
        invariant
            i <= a.len() == b.len(),
            forall|j: int| 0 <= j < i ==> a@[j]@ == b@[j]@,
        decreases a.len() - i,
    {
        if !a[i].eq_internal(&b[i]) {
            assert(terms_of(a@)[i as int] != terms_of(b@)[i as int]);
            return false;
        }
        i += 1;
    }
    assert(terms_of(a@) =~= terms_of(b@));
    true
}

impl Sym {
    /// Structural equality: the same tree with the same leaves. Literals are
    /// the same if their bit patterns are: the two zeros differ, and a
    /// literal that is no number equals itself, so that every expression
    /// equals itself.
    pub fn eq_internal(&self, other: &Self) -> (r: bool)
        ensures
            r == (self@ == other@),
        decreases self, 0nat,
    {
        match (self, other) {
            (Sym::Number(a), Sym::Number(b)) => *a == *b,
            (Sym::Identifier(a), Sym::Identifier(b)) => same_name(a, b),
            (Sym::Constant(a), Sym::Constant(b)) => true,
            (Sym::Operation(a), Sym::Operation(b)) => a.eq_internal(b),
            _ => false,
        }
    }
}

impl Operation {
    /// Structural equality: the same operator on equal operands.
    pub fn eq_internal(&self, other: &Self) -> (r: bool)
        ensures
            r == (self@ == other@),
        decreases self, 0nat,
    {
        match (self, other) {
            (Operation::Sqrt(a), Operation::Sqrt(b)) => a.eq_internal(b),
            (Operation::UnSub(a), Operation::UnSub(b)) => a.eq_internal(b),
            (Operation::Cos(a), Operation::Cos(b)) => a.eq_internal(b),
            (Operation::Sin(a), Operation::Sin(b)) => a.eq_internal(b),
            (Operation::Nop(a), Operation::Nop(b)) => a.eq_internal(b),
            (Operation::Add(a, b), Operation::Add(c, d)) => a.eq_internal(c) && b.eq_internal(d),
            (Operation::Sub(a, b), Operation::Sub(c, d)) => a.eq_internal(c) && b.eq_internal(d),
            (Operation::Div(a, b), Operation::Div(c, d)) => a.eq_internal(c) && b.eq_internal(d),
            (Operation::Mul(a, b), Operation::Mul(c, d)) => a.eq_internal(c) && b.eq_internal(d),
            (Operation::Rem(a, b), Operation::Rem(c, d)) => a.eq_internal(c) && b.eq_internal(d),
            (Operation::Sum(a), Operation::Sum(b)) => all_equal(a, b),
            (Operation::Prod(a), Operation::Prod(b)) => all_equal(a, b),
            _ => false,
        }
    }
}

/// Whether two expressions are the same tree with leaves of the same value:
/// literals are compared as numbers, so that the two zeros are alike, and a
/// literal that is no number is like none.
pub open spec fn alike(a: Term, b: Term) -> bool
    decreases a, 0nat,
{
    match (a, b) {
        (Term::Number(x), Term::Number(y)) => lit_equal(x, y),
        (Term::Identifier(x), Term::Identifier(y)) => x == y,
        (Term::Constant(x), Term::Constant(y)) => x == y,
        (Term::Sqrt(x), Term::Sqrt(y)) => alike(*x, *y),
        (Term::UnSub(x), Term::UnSub(y)) => alike(*x, *y),
        (Term::Cos(x), Term::Cos(y)) => alike(*x, *y),
        (Term::Sin(x), Term::Sin(y)) => alike(*x, *y),
        (Term::Nop(x), Term::Nop(y)) => alike(*x, *y),
        (Term::Add(x, y), Term::Add(u, w)) => alike(*x, *u) && alike(*y, *w),
        (Term::Sub(x, y), Term::Sub(u, w)) => alike(*x, *u) && alike(*y, *w),
        (Term::Div(x, y), Term::Div(u, w)) => alike(*x, *u) && alike(*y, *w),
        (Term::Mul(x, y), Term::Mul(u, w)) => alike(*x, *u) && alike(*y, *w),
        (Term::Rem(x, y), Term::Rem(u, w)) => alike(*x, *u) && alike(*y, *w),
        (Term::Sum(v), Term::Sum(w)) => v.len() == w.len() && alike_upto(v, w, v.len()),
        (Term::Prod(v), Term::Prod(w)) => v.len() == w.len() && alike_upto(v, w, v.len()),
        _ => false,
    }
}

/// Whether the first `n` members of two lists are alike, one by one.
pub open spec fn alike_upto(v: Seq<Term>, w: Seq<Term>, n: nat) -> bool
    decreases v, n,
{
    if n == 0 || n > v.len() || n > w.len() {
        true
    } else {
        alike_upto(v, w, (n - 1) as nat) && alike(v[n - 1], w[n - 1])
    }
}

proof fn lemma_not_alike(v: Seq<Term>, w: Seq<Term>, i: int, n: nat)
    requires
        0 <= i < n,
        n <= v.len(),
        n <= w.len(),
        !alike(v[i], w[i]),
    ensures
        !alike_upto(v, w, n),
    decreases n,
{
    if n - 1 > i {
        lemma_not_alike(v, w, i, (n - 1) as nat);
    }
}

fn all_alike(a: &Vec<Sym>, b: &Vec<Sym>) -> (r: bool)
    ensures
        r == (a@.len() == b@.len() && alike_upto(terms_of(a@), terms_of(b@), a@.len())),
    decreases a, 1nat,
{
    if a.len() != b.len() {
        return false;
    }
    let mut i: usize = 0;
    while i < a.len()
        invariant
            i <= a.len() == b.len(),
            alike_upto(terms_of(a@), terms_of(b@), i as nat),
        decreases a.len() - i,
    {
        if !a[i].eq_value(&b[i]) {
            proof {
                lemma_not_alike(terms_of(a@), terms_of(b@), i as int, a@.len());
            }
            return false;
        }
        i += 1;
    }
    true
}

impl Sym {
    /// Equality of value: the same tree with leaves of the same value, the
    /// literals compared as numbers.
    pub fn eq_value(&self, other: &Self) -> (r: bool)
        ensures
            r == alike(self@, other@),
        decreases self, 0nat,
    {
        match (self, other) {
            (Sym::Number(a), Sym::Number(b)) => literal_equal(*a, *b),
            (Sym::Identifier(a), Sym::Identifier(b)) => same_name(a, b),
            (Sym::Constant(a), Sym::Constant(b)) => true,
            (Sym::Operation(a), Sym::Operation(b)) => a.eq_value(b),
            _ => false,
        }
    }
}

impl Operation {
    /// Equality of value: the same operator on operands of equal value.
    pub fn eq_value(&self, other: &Self) -> (r: bool)
        ensures
            r == alike(self@, other@),
        decreases self, 0nat,
    {
        match (self, other) {
            (Operation::Sqrt(a), Operation::Sqrt(b)) => a.eq_value(b),
            (Operation::UnSub(a), Operation::UnSub(b)) => a.eq_value(b),
            (Operation::Cos(a), Operation::Cos(b)) => a.eq_value(b),
            (Operation::Sin(a), Operation::Sin(b)) => a.eq_value(b),
            (Operation::Nop(a), Operation::Nop(b)) => a.eq_value(b),
            (Operation::Add(a, b), Operation::Add(c, d)) => a.eq_value(c) && b.eq_value(d),
            (Operation::Sub(a, b), Operation::Sub(c, d)) => a.eq_value(c) && b.eq_value(d),
            (Operation::Div(a, b), Operation::Div(c, d)) => a.eq_value(c) && b.eq_value(d),
            (Operation::Mul(a, b), Operation::Mul(c, d)) => a.eq_value(c) && b.eq_value(d),
            (Operation::Rem(a, b), Operation::Rem(c, d)) => a.eq_value(c) && b.eq_value(d),
            (Operation::Sum(a), Operation::Sum(b)) => all_alike(a, b),
            (Operation::Prod(a), Operation::Prod(b)) => all_alike(a, b),
            _ => false,
        }
    }
}

impl Clone for Sym {
    fn clone(&self) -> (r: Self)
        ensures
            r@ == self@,
    {
        self.duplicate()
    }
}

impl Clone for Operation {
    fn clone(&self) -> (r: Self)
        ensures
            r@ == self@,
    {
        self.duplicate()
    }
}

} // verus!
