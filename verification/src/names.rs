//! Simplification brings in no name.
//!
//! The names in a simplified expression are names of the expression that
//! was simplified: where those are tidy, so are these.
use crate::arith::{
    cosine_of, difference_of, negated, product_of, quotient_of, sine_of, sum_of, unsigned,
};
use crate::canon::merged;
use crate::kept::{
    any_holds, holds, lemma_kept_merged, lemma_kept_operators, lemma_kept_reduced,
    lemma_kept_settled, never_built,
};
use crate::opt::{reduced, settled, simplified};
use crate::groups::tidy;
use crate::syms::Term;
use vstd::prelude::*;

verus! {

/// Whether a name in the expression is not tidy: empty, with an empty
/// group in it, beginning with `}` or ending with `{`.
pub open spec fn has_untidy_name(t: Term) -> bool
    decreases t, 0nat,
{
    match t {
        Term::Identifier(name) => !tidy(name),
        Term::Sqrt(s) => has_untidy_name(*s),
        Term::Sin(s) => has_untidy_name(*s),
        Term::Cos(s) => has_untidy_name(*s),
        Term::UnSub(s) => has_untidy_name(*s),
        Term::Nop(s) => has_untidy_name(*s),
        Term::Add(a, b) => has_untidy_name(*a) || has_untidy_name(*b),
        Term::Sub(a, b) => has_untidy_name(*a) || has_untidy_name(*b),
        Term::Mul(a, b) => has_untidy_name(*a) || has_untidy_name(*b),
        Term::Div(a, b) => has_untidy_name(*a) || has_untidy_name(*b),
        Term::Rem(a, b) => has_untidy_name(*a) || has_untidy_name(*b),
        Term::Sum(v) => any_has_untidy_name(v, v.len()),
        Term::Prod(v) => any_has_untidy_name(v, v.len()),
        _ => false,
    }
}

/// Whether a name in one of the first `n` members is not tidy.
pub open spec fn any_has_untidy_name(v: Seq<Term>, n: nat) -> bool
    decreases v, n,
{
    if n == 0 || n > v.len() {
        false
    } else {
        any_has_untidy_name(v, (n - 1) as nat) || has_untidy_name(v[n - 1])
    }
}

/// The kind of node that is a symbol with a name that is not tidy.
pub open spec fn untidy_name() -> spec_fn(Term) -> bool {
    |t: Term| t matches Term::Identifier(name) && !tidy(name)
}

/// The two ways of saying it agree.
pub proof fn lemma_names_means(t: Term)
    ensures
        has_untidy_name(t) == holds(t, untidy_name()),
        never_built(untidy_name()),
    decreases t, 0nat,
{
    match t {
        Term::Sqrt(s) => {
            lemma_names_means(*s);
        },
        Term::Sin(s) => {
            lemma_names_means(*s);
        },
        Term::Cos(s) => {
            lemma_names_means(*s);
        },
        Term::UnSub(s) => {
            lemma_names_means(*s);
        },
        Term::Nop(s) => {
            lemma_names_means(*s);
        },
        Term::Add(a, b) => {
            lemma_names_means(*a);
            lemma_names_means(*b);
        },
        Term::Sub(a, b) => {
            lemma_names_means(*a);
            lemma_names_means(*b);
        },
        Term::Mul(a, b) => {
            lemma_names_means(*a);
            lemma_names_means(*b);
        },
        Term::Div(a, b) => {
            lemma_names_means(*a);
            lemma_names_means(*b);
        },
        Term::Rem(a, b) => {
            lemma_names_means(*a);
            lemma_names_means(*b);
        },
        Term::Sum(v) => {
            lemma_names_means_of(v, v.len());
        },
        Term::Prod(v) => {
            lemma_names_means_of(v, v.len());
        },
        _ => {},
    }
    assert forall|x: Term| #[trigger] untidy_name()(x) implies x is Identifier || x is Rem
        || x is Nop by {}
}

proof fn lemma_names_means_of(v: Seq<Term>, n: nat)
    ensures
        any_has_untidy_name(v, n) == any_holds(v, n, untidy_name()),
    decreases v, n,
{
    if n == 0 || n > v.len() {
    } else {
        lemma_names_means_of(v, (n - 1) as nat);
        lemma_names_means(v[n - 1]);
    }
}

/// The operators bring in none.
pub proof fn lemma_names_operators(a: Term, b: Term)
    requires
        !has_untidy_name(a),
        !has_untidy_name(b),
    ensures
        !has_untidy_name(negated(a)),
        !has_untidy_name(unsigned(a)),
        !has_untidy_name(sine_of(a)),
        !has_untidy_name(cosine_of(a)),
        !has_untidy_name(product_of(a, b)),
        !has_untidy_name(sum_of(a, b)),
        !has_untidy_name(difference_of(a, b)),
        !has_untidy_name(quotient_of(a, b)),
{
    lemma_names_means(a);
    lemma_names_means(b);
    lemma_kept_operators(a, b, untidy_name());
    lemma_names_means(negated(a));
    lemma_names_means(unsigned(a));
    lemma_names_means(sine_of(a));
    lemma_names_means(cosine_of(a));
    lemma_names_means(product_of(a, b));
    lemma_names_means(sum_of(a, b));
    lemma_names_means(difference_of(a, b));
    lemma_names_means(quotient_of(a, b));
}

/// Merging brings in none.
pub proof fn lemma_names_merged(t: Term)
    requires
        !has_untidy_name(t),
    ensures
        !has_untidy_name(merged(t)),
{
    lemma_names_means(t);
    lemma_kept_merged(t, untidy_name());
    lemma_names_means(merged(t));
}

/// One pass brings in none.
pub proof fn lemma_names_reduced(t: Term)
    requires
        !has_untidy_name(t),
    ensures
        !has_untidy_name(reduced(t)),
{
    lemma_names_means(t);
    lemma_kept_reduced(t, untidy_name());
    lemma_names_means(reduced(t));
}

/// The driver brings in none.
pub proof fn lemma_names_settled(t: Term, fuel: nat)
    requires
        !has_untidy_name(t),
    ensures
        !has_untidy_name(settled(t, fuel)),
{
    lemma_names_means(t);
    lemma_kept_settled(t, fuel, untidy_name());
    lemma_names_means(settled(t, fuel));
}

/// Simplification brings in none.
pub proof fn lemma_names_simplified(t: Term)
    requires
        !has_untidy_name(t),
    ensures
        !has_untidy_name(simplified(t)),
{
    lemma_names_settled(t, crate::opt::PASS_LIMIT as nat);
}

} // verus!
