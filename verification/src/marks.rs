//! Simplification brings in no mark.
//!
//! An expression that holds nothing marked as reduced holds nothing marked
//! after a pass either; and none after simplification, where the passes
//! came to rest.
use crate::arith::{
    cosine_of, difference_of, negated, product_of, quotient_of, sine_of, sum_of, unsigned,
};
use crate::canon::merged;
use crate::kept::{
    any_holds, holds, lemma_kept_merged, lemma_kept_operators, lemma_kept_reduced,
    lemma_kept_settled, never_built,
};
use crate::opt::{reduced, settled, simplified};
use crate::syms::{terms_of, Operation, Sym};
use crate::syms::Term;
use vstd::prelude::*;

verus! {

/// Whether the expression holds something marked as reduced.
pub open spec fn has_mark(t: Term) -> bool
    decreases t, 0nat,
{
    match t {
        Term::Nop(_) => true,
        Term::Sqrt(s) => has_mark(*s),
        Term::Sin(s) => has_mark(*s),
        Term::Cos(s) => has_mark(*s),
        Term::UnSub(s) => has_mark(*s),
        Term::Add(a, b) => has_mark(*a) || has_mark(*b),
        Term::Sub(a, b) => has_mark(*a) || has_mark(*b),
        Term::Mul(a, b) => has_mark(*a) || has_mark(*b),
        Term::Div(a, b) => has_mark(*a) || has_mark(*b),
        Term::Rem(a, b) => has_mark(*a) || has_mark(*b),
        Term::Sum(v) => any_has_mark(v, v.len()),
        Term::Prod(v) => any_has_mark(v, v.len()),
        _ => false,
    }
}

/// Whether one of the first `n` members holds something marked.
pub open spec fn any_has_mark(v: Seq<Term>, n: nat) -> bool
    decreases v, n,
{
    if n == 0 || n > v.len() {
        false
    } else {
        any_has_mark(v, (n - 1) as nat) || has_mark(v[n - 1])
    }
}

/// The kind of node that is a mark.
pub open spec fn mark() -> spec_fn(Term) -> bool {
    |t: Term| t is Nop
}

/// The two ways of saying it agree.
pub proof fn lemma_unmarked_means(t: Term)
    ensures
        has_mark(t) == holds(t, mark()),
        never_built(mark()),
    decreases t, 0nat,
{
    match t {
        Term::Sqrt(s) => {
            lemma_unmarked_means(*s);
        },
        Term::Sin(s) => {
            lemma_unmarked_means(*s);
        },
        Term::Cos(s) => {
            lemma_unmarked_means(*s);
        },
        Term::UnSub(s) => {
            lemma_unmarked_means(*s);
        },
        Term::Nop(s) => {
            lemma_unmarked_means(*s);
        },
        Term::Add(a, b) => {
            lemma_unmarked_means(*a);
            lemma_unmarked_means(*b);
        },
        Term::Sub(a, b) => {
            lemma_unmarked_means(*a);
            lemma_unmarked_means(*b);
        },
        Term::Mul(a, b) => {
            lemma_unmarked_means(*a);
            lemma_unmarked_means(*b);
        },
        Term::Div(a, b) => {
            lemma_unmarked_means(*a);
            lemma_unmarked_means(*b);
        },
        Term::Rem(a, b) => {
            lemma_unmarked_means(*a);
            lemma_unmarked_means(*b);
        },
        Term::Sum(v) => {
            lemma_unmarked_means_of(v, v.len());
        },
        Term::Prod(v) => {
            lemma_unmarked_means_of(v, v.len());
        },
        _ => {},
    }
    assert forall|x: Term| #[trigger] mark()(x) implies x is Identifier || x is Rem
        || x is Nop by {}
}

proof fn lemma_unmarked_means_of(v: Seq<Term>, n: nat)
    ensures
        any_has_mark(v, n) == any_holds(v, n, mark()),
    decreases v, n,
{
    if n == 0 || n > v.len() {
    } else {
        lemma_unmarked_means_of(v, (n - 1) as nat);
        lemma_unmarked_means(v[n - 1]);
    }
}

/// The operators bring in none.
pub proof fn lemma_unmarked_operators(a: Term, b: Term)
    requires
        !has_mark(a),
        !has_mark(b),
    ensures
        !has_mark(negated(a)),
        !has_mark(unsigned(a)),
        !has_mark(sine_of(a)),
        !has_mark(cosine_of(a)),
        !has_mark(product_of(a, b)),
        !has_mark(sum_of(a, b)),
        !has_mark(difference_of(a, b)),
        !has_mark(quotient_of(a, b)),
{
    lemma_unmarked_means(a);
    lemma_unmarked_means(b);
    lemma_kept_operators(a, b, mark());
    lemma_unmarked_means(negated(a));
    lemma_unmarked_means(unsigned(a));
    lemma_unmarked_means(sine_of(a));
    lemma_unmarked_means(cosine_of(a));
    lemma_unmarked_means(product_of(a, b));
    lemma_unmarked_means(sum_of(a, b));
    lemma_unmarked_means(difference_of(a, b));
    lemma_unmarked_means(quotient_of(a, b));
}

/// Merging brings in none.
pub proof fn lemma_unmarked_merged(t: Term)
    requires
        !has_mark(t),
    ensures
        !has_mark(merged(t)),
{
    lemma_unmarked_means(t);
    lemma_kept_merged(t, mark());
    lemma_unmarked_means(merged(t));
}

/// One pass brings in none.
pub proof fn lemma_unmarked_reduced(t: Term)
    requires
        !has_mark(t),
    ensures
        !has_mark(reduced(t)),
{
    lemma_unmarked_means(t);
    lemma_kept_reduced(t, mark());
    lemma_unmarked_means(reduced(t));
}

/// The driver brings in none.
pub proof fn lemma_unmarked_settled(t: Term, fuel: nat)
    requires
        !has_mark(t),
        crate::opt::rests(t, fuel),
    ensures
        !has_mark(settled(t, fuel)),
{
    lemma_unmarked_means(t);
    lemma_kept_settled(t, fuel, mark());
    lemma_unmarked_means(settled(t, fuel));
}

/// Simplification brings in none.
pub proof fn lemma_unmarked_simplified(t: Term)
    requires
        !has_mark(t),
        crate::opt::rests(t, crate::opt::PASS_LIMIT as nat),
    ensures
        !has_mark(simplified(t)),
{
    lemma_unmarked_settled(t, crate::opt::PASS_LIMIT as nat);
}

fn holds_mark_in(v: &Vec<Sym>) -> (r: bool)
    ensures
        r == any_has_mark(terms_of(v@), v@.len()),
    decreases v, 1nat,
{
    let mut i: usize = 0;
    while i < v.len()
        invariant
            i <= v.len(),
            !any_has_mark(terms_of(v@), i as nat),
        decreases v.len() - i,
    {
        if v[i].holds_mark() {
            proof {
                lemma_mark_found(terms_of(v@), i as int, v@.len());
            }
            return true;
        }
        i += 1;
    }
    false
}

proof fn lemma_mark_found(v: Seq<Term>, i: int, n: nat)
    requires
        0 <= i < n <= v.len(),
        has_mark(v[i]),
    ensures
        any_has_mark(v, n),
    decreases n,
{
    if n - 1 > i {
        lemma_mark_found(v, i, (n - 1) as nat);
    }
}

impl Sym {
    /// Whether this expression holds something marked as reduced.
    pub fn holds_mark(&self) -> (r: bool)
        ensures
            r == has_mark(self@),
        decreases self, 0nat,
    {
        match self {
            Sym::Operation(o) => o.holds_mark(),
            _ => false,
        }
    }
}

impl Operation {
    /// Whether this expression holds something marked as reduced.
    pub fn holds_mark(&self) -> (r: bool)
        ensures
            r == has_mark(self@),
        decreases self, 0nat,
    {
        match self {
            Operation::Sqrt(s) => s.holds_mark(),
            Operation::Sin(s) => s.holds_mark(),
            Operation::Cos(s) => s.holds_mark(),
            Operation::UnSub(s) => s.holds_mark(),
            Operation::Nop(s) => true,
            Operation::Add(a, b) => a.holds_mark() || b.holds_mark(),
            Operation::Sub(a, b) => a.holds_mark() || b.holds_mark(),
            Operation::Mul(a, b) => a.holds_mark() || b.holds_mark(),
            Operation::Div(a, b) => a.holds_mark() || b.holds_mark(),
            Operation::Rem(a, b) => a.holds_mark() || b.holds_mark(),
            Operation::Sum(v) => holds_mark_in(v),
            Operation::Prod(v) => holds_mark_in(v),
        }
    }
}

} // verus!
