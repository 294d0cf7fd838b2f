//! Simplification brings in no remainder.
//!
//! The simplifier takes no expression that holds a remainder. What it gives
//! back holds none either, so that it can be simplified again.
use crate::arith::{
    cosine_of, difference_of, negated, product_of, quotient_of, sine_of, sum_of, unsigned,
};
use crate::canon::merged;
use crate::kept::{
    any_holds, holds, lemma_kept_merged, lemma_kept_operators, lemma_kept_reduced,
    lemma_kept_settled, never_built,
};
use crate::opt::{reduced, settled, simplified};
use crate::opt::{any_has_remainder, has_remainder};
use crate::syms::Term;
use vstd::prelude::*;

verus! {

/// The kind of node that is a remainder.
pub open spec fn remainder() -> spec_fn(Term) -> bool {
    |t: Term| t is Rem
}

/// The two ways of saying it agree.
pub proof fn lemma_clean_means(t: Term)
    ensures
        has_remainder(t) == holds(t, remainder()),
        never_built(remainder()),
    decreases t, 0nat,
{
    match t {
        Term::Sqrt(s) => {
            lemma_clean_means(*s);
        },
        Term::Sin(s) => {
            lemma_clean_means(*s);
        },
        Term::Cos(s) => {
            lemma_clean_means(*s);
        },
        Term::UnSub(s) => {
            lemma_clean_means(*s);
        },
        Term::Nop(s) => {
            lemma_clean_means(*s);
        },
        Term::Add(a, b) => {
            lemma_clean_means(*a);
            lemma_clean_means(*b);
        },
        Term::Sub(a, b) => {
            lemma_clean_means(*a);
            lemma_clean_means(*b);
        },
        Term::Mul(a, b) => {
            lemma_clean_means(*a);
            lemma_clean_means(*b);
        },
        Term::Div(a, b) => {
            lemma_clean_means(*a);
            lemma_clean_means(*b);
        },
        Term::Rem(a, b) => {
            lemma_clean_means(*a);
            lemma_clean_means(*b);
        },
        Term::Sum(v) => {
            lemma_clean_means_of(v, v.len());
        },
        Term::Prod(v) => {
            lemma_clean_means_of(v, v.len());
        },
        _ => {},
    }
    assert forall|x: Term| #[trigger] remainder()(x) implies x is Identifier || x is Rem
        || x is Nop by {}
}

proof fn lemma_clean_means_of(v: Seq<Term>, n: nat)
    ensures
        any_has_remainder(v, n) == any_holds(v, n, remainder()),
    decreases v, n,
{
    if n == 0 || n > v.len() {
    } else {
        lemma_clean_means_of(v, (n - 1) as nat);
        lemma_clean_means(v[n - 1]);
    }
}

/// The operators bring in none.
pub proof fn lemma_clean_operators(a: Term, b: Term)
    requires
        !has_remainder(a),
        !has_remainder(b),
    ensures
        !has_remainder(negated(a)),
        !has_remainder(unsigned(a)),
        !has_remainder(sine_of(a)),
        !has_remainder(cosine_of(a)),
        !has_remainder(product_of(a, b)),
        !has_remainder(sum_of(a, b)),
        !has_remainder(difference_of(a, b)),
        !has_remainder(quotient_of(a, b)),
{
    lemma_clean_means(a);
    lemma_clean_means(b);
    lemma_kept_operators(a, b, remainder());
    lemma_clean_means(negated(a));
    lemma_clean_means(unsigned(a));
    lemma_clean_means(sine_of(a));
    lemma_clean_means(cosine_of(a));
    lemma_clean_means(product_of(a, b));
    lemma_clean_means(sum_of(a, b));
    lemma_clean_means(difference_of(a, b));
    lemma_clean_means(quotient_of(a, b));
}

/// Merging brings in none.
pub proof fn lemma_clean_merged(t: Term)
    requires
        !has_remainder(t),
    ensures
        !has_remainder(merged(t)),
{
    lemma_clean_means(t);
    lemma_kept_merged(t, remainder());
    lemma_clean_means(merged(t));
}

/// One pass brings in none.
pub proof fn lemma_clean_reduced(t: Term)
    requires
        !has_remainder(t),
    ensures
        !has_remainder(reduced(t)),
{
    lemma_clean_means(t);
    lemma_kept_reduced(t, remainder());
    lemma_clean_means(reduced(t));
}

/// The driver brings in none.
pub proof fn lemma_clean_settled(t: Term, fuel: nat)
    requires
        !has_remainder(t),
    ensures
        !has_remainder(settled(t, fuel)),
{
    lemma_clean_means(t);
    lemma_kept_settled(t, fuel, remainder());
    lemma_clean_means(settled(t, fuel));
}

/// Simplification brings in none.
pub proof fn lemma_clean_simplified(t: Term)
    requires
        !has_remainder(t),
    ensures
        !has_remainder(simplified(t)),
{
    lemma_clean_settled(t, crate::opt::PASS_LIMIT as nat);
}

} // verus!
