//! What simplification never brings in.
//!
//! The simplifier builds literals and operators; it never builds a symbol,
//! a remainder or a mark. So where no node of an expression is of some kind
//! that is one of these three, no node of what a pass makes of it is: an
//! expression without remainders stays without, and so for marks and for
//! names.
use crate::arith::{
    cosine_of, difference_of, negated, product_of, quotient_of, sine_of, sum_of, unsigned,
};
use crate::canon::{
    add_terms, add_terms_of, joins_product, joins_sum, merged, mul_terms, mul_terms_of,
};
use crate::opt::{
    add_rule, angle, bare, cleared, cleared_each, cosine_theorem, div_rule, extracted, factors,
    factors_of_all, factors_of_each, kept_factors, mul_rule, pair_of, plain_terms,
    prod_rule, reduced, reduced_each, settled, simplified, sine_cosine, sine_theorem, sub_rule,
    sum_of_terms, sum_rule, trig_identity, two_cosines, without, without_in_each,
    without_in_turn,
};
use crate::order::{lemma_sorted, sorted};
use crate::syms::Term;
use crate::terms::{combined, picked, put, remaining, shared};
use vstd::prelude::*;

verus! {

/// A kind of node that the simplifier never builds: a kind of symbol, of
/// remainder or of mark.
pub open spec fn never_built(bad: spec_fn(Term) -> bool) -> bool {
    forall|t: Term| #[trigger] bad(t) ==> t is Identifier || t is Rem || t is Nop
}

/// Whether a node of the expression is of the kind `bad`.
pub open spec fn holds(t: Term, bad: spec_fn(Term) -> bool) -> bool
    decreases t, 0nat,
{
    bad(t) || match t {
        Term::Sqrt(s) => holds(*s, bad),
        Term::Sin(s) => holds(*s, bad),
        Term::Cos(s) => holds(*s, bad),
        Term::UnSub(s) => holds(*s, bad),
        Term::Nop(s) => holds(*s, bad),
        Term::Add(a, b) => holds(*a, bad) || holds(*b, bad),
        Term::Sub(a, b) => holds(*a, bad) || holds(*b, bad),
        Term::Mul(a, b) => holds(*a, bad) || holds(*b, bad),
        Term::Div(a, b) => holds(*a, bad) || holds(*b, bad),
        Term::Rem(a, b) => holds(*a, bad) || holds(*b, bad),
        Term::Sum(v) => any_holds(v, v.len(), bad),
        Term::Prod(v) => any_holds(v, v.len(), bad),
        _ => false,
    }
}

/// Whether a node of one of the first `n` members is of the kind `bad`.
pub open spec fn any_holds(v: Seq<Term>, n: nat, bad: spec_fn(Term) -> bool) -> bool
    decreases v, n,
{
    if n == 0 || n > v.len() {
        false
    } else {
        any_holds(v, (n - 1) as nat, bad) || holds(v[n - 1], bad)
    }
}

/// No node of any member is of the kind `bad`.
pub open spec fn none_holds(s: Seq<Term>, bad: spec_fn(Term) -> bool) -> bool {
    forall|i: int| 0 <= i < s.len() ==> !holds(#[trigger] s[i], bad)
}

proof fn lemma_any_holds(v: Seq<Term>, n: nat, bad: spec_fn(Term) -> bool)
    requires
        never_built(bad),
        n <= v.len(),
    ensures
        any_holds(v, n, bad) <==> exists|i: int| 0 <= i < n && holds(#[trigger] v[i], bad),
    decreases n,
{
    if n > 0 {
        lemma_any_holds(v, (n - 1) as nat, bad);
        if any_holds(v, n, bad) {
            if holds(v[n - 1], bad) {
                assert(0 <= n - 1 < n && holds(v[n - 1], bad));
            } else {
                let i = choose|i: int| 0 <= i < n - 1 && holds(#[trigger] v[i], bad);
                assert(0 <= i < n && holds(v[i], bad));
            }
        }
    }
}

/// A collection holds a node of the kind exactly if one of its members
/// does.
pub proof fn lemma_kept_collection(v: Seq<Term>, bad: spec_fn(Term) -> bool)
    requires
        never_built(bad),
    ensures
        !holds(Term::Sum(v), bad) <==> none_holds(v, bad),
        !holds(Term::Prod(v), bad) <==> none_holds(v, bad),
{
    lemma_any_holds(v, v.len(), bad);
    if none_holds(v, bad) {
        if any_holds(v, v.len(), bad) {
            let i = choose|i: int| 0 <= i < v.len() && holds(#[trigger] v[i], bad);
            assert(!holds(v[i], bad));
        }
    } else {
        let i = choose|i: int| 0 <= i < v.len() && holds(#[trigger] v[i], bad);
        assert(0 <= i < v.len() && holds(v[i], bad));
    }
}

proof fn lemma_kept_joined(x: Seq<Term>, y: Seq<Term>, bad: spec_fn(Term) -> bool)
    requires
        never_built(bad),
        none_holds(x, bad),
        none_holds(y, bad),
    ensures
        none_holds(x + y, bad),
{
    assert forall|i: int| 0 <= i < (x + y).len() implies !holds(#[trigger] (x + y)[i], bad) by {
        if i < x.len() {
            assert((x + y)[i] == x[i]);
        } else {
            assert((x + y)[i] == y[i - x.len()]);
        }
    }
}

proof fn lemma_kept_pushed(x: Seq<Term>, t: Term, bad: spec_fn(Term) -> bool)
    requires
        never_built(bad),
        none_holds(x, bad),
        !holds(t, bad),
    ensures
        none_holds(x.push(t), bad),
{
    assert forall|i: int| 0 <= i < x.push(t).len() implies !holds(
        #[trigger] x.push(t)[i],
        bad,
    ) by {
        if i < x.len() {
            assert(x.push(t)[i] == x[i]);
        }
    }
}

proof fn lemma_kept_sorted(s: Seq<Term>, bad: spec_fn(Term) -> bool)
    requires
        never_built(bad),
        none_holds(s, bad),
    ensures
        none_holds(sorted(s), bad),
{
    lemma_sorted(s);
    assert forall|i: int| 0 <= i < sorted(s).len() implies !holds(
        #[trigger] sorted(s)[i],
        bad,
    ) by {
        let x = sorted(s)[i];
        assert(sorted(s).contains(x));
        assert(s.contains(x));
        let j = choose|j: int| 0 <= j < s.len() && s[j] == x;
        assert(!holds(s[j], bad));
    }
}

/// The operators bring in no node of the kind.
pub proof fn lemma_kept_operators(a: Term, b: Term, bad: spec_fn(Term) -> bool)
    requires
        never_built(bad),
        !holds(a, bad),
        !holds(b, bad),
    ensures
        !holds(negated(a), bad),
        !holds(unsigned(a), bad),
        !holds(sine_of(a), bad),
        !holds(cosine_of(a), bad),
        !holds(product_of(a, b), bad),
        !holds(sum_of(a, b), bad),
        !holds(difference_of(a, b), bad),
        !holds(quotient_of(a, b), bad),
{
    reveal_with_fuel(holds, 3);
    assert(!holds(negated(b), bad));
    assert(!holds(unsigned(b), bad));
    assert(!holds(product_of(a, b), bad));
    assert(!holds(product_of(Term::Number(crate::literal::TWO), a), bad));
}

proof fn lemma_kept_add_terms(t: Term, bad: spec_fn(Term) -> bool)
    requires
        never_built(bad),
        !holds(t, bad),
    ensures
        none_holds(add_terms(t), bad),
    decreases t, 0nat,
{
    match t {
        Term::Add(a, b) => {
            lemma_kept_add_terms(*a, bad);
            lemma_kept_add_terms(*b, bad);
            lemma_kept_joined(add_terms(*a), add_terms(*b), bad);
        },
        Term::Sum(v) => {
            lemma_kept_collection(v, bad);
            lemma_kept_add_terms_of(v, v.len(), bad);
        },
        _ => {},
    }
}

proof fn lemma_kept_add_terms_of(v: Seq<Term>, n: nat, bad: spec_fn(Term) -> bool)
    requires
        never_built(bad),
        none_holds(v, bad),
    ensures
        none_holds(add_terms_of(v, n), bad),
    decreases v, n,
{
    if n == 0 || n > v.len() {
    } else {
        lemma_kept_add_terms_of(v, (n - 1) as nat, bad);
        lemma_kept_add_terms(v[n - 1], bad);
        lemma_kept_joined(add_terms_of(v, (n - 1) as nat), add_terms(v[n - 1]), bad);
    }
}

proof fn lemma_kept_mul_terms(t: Term, bad: spec_fn(Term) -> bool)
    requires
        never_built(bad),
        !holds(t, bad),
    ensures
        none_holds(mul_terms(t), bad),
    decreases t, 0nat,
{
    match t {
        Term::Mul(a, b) => {
            lemma_kept_mul_terms(*a, bad);
            lemma_kept_mul_terms(*b, bad);
            lemma_kept_joined(mul_terms(*a), mul_terms(*b), bad);
        },
        Term::Prod(v) => {
            lemma_kept_collection(v, bad);
            lemma_kept_mul_terms_of(v, v.len(), bad);
        },
        _ => {},
    }
}

proof fn lemma_kept_mul_terms_of(v: Seq<Term>, n: nat, bad: spec_fn(Term) -> bool)
    requires
        never_built(bad),
        none_holds(v, bad),
    ensures
        none_holds(mul_terms_of(v, n), bad),
    decreases v, n,
{
    if n == 0 || n > v.len() {
    } else {
        lemma_kept_mul_terms_of(v, (n - 1) as nat, bad);
        lemma_kept_mul_terms(v[n - 1], bad);
        lemma_kept_joined(mul_terms_of(v, (n - 1) as nat), mul_terms(v[n - 1]), bad);
    }
}

/// Merging brings in no node of the kind.
pub proof fn lemma_kept_merged(t: Term, bad: spec_fn(Term) -> bool)
    requires
        never_built(bad),
        !holds(t, bad),
    ensures
        !holds(merged(t), bad),
{
    if joins_sum(t) {
        lemma_kept_add_terms(t, bad);
        lemma_kept_sorted(add_terms(t), bad);
        lemma_kept_collection(sorted(add_terms(t)), bad);
    } else if joins_product(t) {
        lemma_kept_mul_terms(t, bad);
        lemma_kept_sorted(mul_terms(t), bad);
        lemma_kept_collection(sorted(mul_terms(t)), bad);
    }
}

proof fn lemma_kept_put(s: Seq<Term>, x: Term, bad: spec_fn(Term) -> bool)
    requires
        never_built(bad),
        none_holds(s, bad),
        !holds(x, bad),
    ensures
        none_holds(put(s, x), bad),
{
    lemma_kept_pushed(s, x, bad);
}

proof fn lemma_kept_picked(items: Seq<Term>, other: Seq<Term>, present: bool, n: nat, bad: spec_fn(Term) -> bool)
    requires
        never_built(bad),
        none_holds(items, bad),
    ensures
        none_holds(picked(items, other, present, n), bad),
    decreases n,
{
    if n == 0 || n > items.len() {
    } else {
        lemma_kept_picked(items, other, present, (n - 1) as nat, bad);
        lemma_kept_put(picked(items, other, present, (n - 1) as nat), items[n - 1], bad);
    }
}

proof fn lemma_kept_sets(a: Seq<Term>, b: Seq<Term>, bad: spec_fn(Term) -> bool)
    requires
        never_built(bad),
        none_holds(a, bad),
        none_holds(b, bad),
    ensures
        none_holds(combined(a, b), bad),
        none_holds(shared(a, b), bad),
        none_holds(remaining(a, b), bad),
{
    lemma_kept_joined(a, b, bad);
    lemma_kept_picked(a, b, true, a.len(), bad);
    lemma_kept_picked(a, b, false, a.len(), bad);
}

/// The factors of an expression hold no node of a kind that the expression
/// does not hold.
pub proof fn lemma_kept_factors(t: Term, bad: spec_fn(Term) -> bool)
    requires
        never_built(bad),
        !holds(t, bad),
    ensures
        none_holds(factors(t), bad),
    decreases t, 0nat,
{
    match t {
        Term::Mul(a, b) => {
            lemma_kept_factors(*a, bad);
            lemma_kept_factors(*b, bad);
            lemma_kept_sets(factors(*a), factors(*b), bad);
        },
        Term::Add(a, b) => {
            lemma_kept_factors(*a, bad);
            lemma_kept_factors(*b, bad);
            lemma_kept_sets(factors(*a), factors(*b), bad);
        },
        Term::Sub(a, b) => {
            lemma_kept_factors(*a, bad);
            lemma_kept_factors(*b, bad);
            lemma_kept_sets(factors(*a), factors(*b), bad);
        },
        Term::Div(a, b) => {
            lemma_kept_factors(*a, bad);
            lemma_kept_factors(*b, bad);
            lemma_kept_sets(factors(*a), factors(*b), bad);
        },
        Term::Prod(v) => {
            lemma_kept_collection(v, bad);
            lemma_kept_factors_of_all(v, v.len(), bad);
        },
        Term::Sum(v) => {
            lemma_kept_collection(v, bad);
            lemma_kept_factors_of_each(v, v.len(), bad);
        },
        Term::Rem(_, _) => {},
        Term::Nop(_) => {},
        _ => {
            lemma_kept_put(Seq::empty(), t, bad);
        },
    }
}

proof fn lemma_kept_factors_of_all(v: Seq<Term>, n: nat, bad: spec_fn(Term) -> bool)
    requires
        never_built(bad),
        none_holds(v, bad),
    ensures
        none_holds(factors_of_all(v, n), bad),
    decreases v, n,
{
    if n == 0 || n > v.len() {
    } else {
        lemma_kept_factors_of_all(v, (n - 1) as nat, bad);
        lemma_kept_factors(v[n - 1], bad);
        lemma_kept_sets(factors_of_all(v, (n - 1) as nat), factors(v[n - 1]), bad);
    }
}

proof fn lemma_kept_factors_of_each(v: Seq<Term>, n: nat, bad: spec_fn(Term) -> bool)
    requires
        never_built(bad),
        none_holds(v, bad),
    ensures
        none_holds(factors_of_each(v, n), bad),
    decreases v, n,
{
    if n == 0 || n > v.len() {
    } else if n == 1 {
        lemma_kept_factors(v[0], bad);
    } else {
        lemma_kept_factors_of_each(v, (n - 1) as nat, bad);
        lemma_kept_factors(v[n - 1], bad);
        lemma_kept_sets(factors_of_each(v, (n - 1) as nat), factors(v[n - 1]), bad);
    }
}

/// Taking factors out brings in no node of the kind.
pub proof fn lemma_kept_without(t: Term, c: Seq<Term>, bad: spec_fn(Term) -> bool)
    requires
        never_built(bad),
        !holds(t, bad),
        none_holds(c, bad),
    ensures
        !holds(without(t, c), bad),
    decreases t, 0nat,
{
    if c.len() == 0 {
    } else {
        match t {
            Term::Mul(a, b) => {
                let first = shared(c, factors(*a));
                lemma_kept_factors(*a, bad);
                lemma_kept_sets(c, factors(*a), bad);
                lemma_kept_sets(c, first, bad);
                lemma_kept_without(*a, first, bad);
                lemma_kept_without(*b, remaining(c, first), bad);
            },
            Term::Prod(v) => {
                lemma_kept_collection(v, bad);
                lemma_kept_without_in_turn(v, c, v.len(), bad);
                lemma_kept_collection(without_in_turn(v, c, v.len()).0, bad);
            },
            Term::Add(a, b) => {
                lemma_kept_without(*a, c, bad);
                lemma_kept_without(*b, c, bad);
            },
            Term::Sub(a, b) => {
                lemma_kept_without(*a, c, bad);
                lemma_kept_without(*b, c, bad);
            },
            Term::Sum(v) => {
                lemma_kept_collection(v, bad);
                lemma_kept_without_in_each(v, c, v.len(), bad);
                lemma_kept_collection(without_in_each(v, c, v.len()), bad);
            },
            Term::Div(a, b) => {
                lemma_kept_without(*a, c, bad);
            },
            _ => {},
        }
    }
}

proof fn lemma_kept_without_in_turn(v: Seq<Term>, c: Seq<Term>, n: nat, bad: spec_fn(Term) -> bool)
    requires
        never_built(bad),
        none_holds(v, bad),
        none_holds(c, bad),
    ensures
        none_holds(without_in_turn(v, c, n).0, bad),
        none_holds(without_in_turn(v, c, n).1, bad),
    decreases v, n,
{
    if n == 0 || n > v.len() {
    } else {
        lemma_kept_without_in_turn(v, c, (n - 1) as nat, bad);
        let (done, left) = without_in_turn(v, c, (n - 1) as nat);
        let here = shared(left, factors(v[n - 1]));
        lemma_kept_factors(v[n - 1], bad);
        lemma_kept_sets(left, factors(v[n - 1]), bad);
        lemma_kept_sets(left, here, bad);
        lemma_kept_without(v[n - 1], here, bad);
        lemma_kept_pushed(done, without(v[n - 1], here), bad);
    }
}

proof fn lemma_kept_without_in_each(v: Seq<Term>, c: Seq<Term>, n: nat, bad: spec_fn(Term) -> bool)
    requires
        never_built(bad),
        none_holds(v, bad),
        none_holds(c, bad),
    ensures
        none_holds(without_in_each(v, c, n), bad),
    decreases v, n,
{
    if n == 0 || n > v.len() {
    } else {
        lemma_kept_without_in_each(v, c, (n - 1) as nat, bad);
        lemma_kept_without(v[n - 1], c, bad);
        lemma_kept_pushed(without_in_each(v, c, (n - 1) as nat), without(v[n - 1], c), bad);
    }
}

proof fn lemma_kept_pair(t: Term, bad: spec_fn(Term) -> bool)
    requires
        never_built(bad),
        !holds(t, bad),
    ensures
        pair_of(t) matches Some(p) ==> !holds(p.0, bad) && !holds(p.1, bad),
{
    if let Term::Prod(v) = t {
        lemma_kept_collection(v, bad);
        if v.len() == 2 {
            assert(!holds(v[0], bad));
            assert(!holds(v[1], bad));
        }
    }
}

proof fn lemma_kept_sine_theorem(p: (Term, Term), q: (Term, Term), minus: bool, bad: spec_fn(Term) -> bool)
    requires
        never_built(bad),
        !holds(p.0, bad),
        !holds(p.1, bad),
    ensures
        sine_theorem(p, q, minus) matches Some(r) ==> !holds(r, bad),
{
    match sine_cosine(p) {
        Some((x, y)) => {
            assert(!holds(x, bad));
            assert(!holds(y, bad));
            assert(!holds(angle(x, y, !minus), bad));
        },
        None => {},
    }
}

proof fn lemma_kept_cosine_theorem(p: (Term, Term), q: (Term, Term), minus: bool, bad: spec_fn(Term) -> bool)
    requires
        never_built(bad),
        !holds(p.0, bad),
        !holds(p.1, bad),
    ensures
        cosine_theorem(p, q, minus) matches Some(r) ==> !holds(r, bad),
{
    match two_cosines(p) {
        Some((x, y)) => {
            assert(!holds(x, bad));
            assert(!holds(y, bad));
            assert(!holds(angle(x, y, minus), bad));
        },
        None => {},
    }
}

proof fn lemma_kept_trig(a: Term, b: Term, minus: bool, bad: spec_fn(Term) -> bool)
    requires
        never_built(bad),
        !holds(a, bad),
        !holds(b, bad),
    ensures
        trig_identity(a, b, minus) matches Some(r) ==> !holds(r, bad),
{
    lemma_kept_pair(a, bad);
    lemma_kept_pair(b, bad);
    match (pair_of(a), pair_of(b)) {
        (Some(p), Some(q)) => {
            lemma_kept_sine_theorem(p, q, minus, bad);
            lemma_kept_cosine_theorem(p, q, minus, bad);
            lemma_kept_cosine_theorem(q, p, false, bad);
        },
        _ => {},
    }
}

proof fn lemma_kept_mul_rule(a: Term, b: Term, bad: spec_fn(Term) -> bool)
    requires
        never_built(bad),
        !holds(a, bad),
        !holds(b, bad),
    ensures
        !holds(mul_rule(a, b), bad),
{
    lemma_kept_operators(a, b, bad);
    match product_of(a, b) {
        Term::Mul(x, y) => {
            lemma_kept_merged(Term::Mul(x, y), bad);
        },
        Term::UnSub(inner) => {
            if *inner is Mul {
                lemma_kept_merged(*inner, bad);
            }
        },
        _ => {},
    }
}

proof fn lemma_kept_kept_factors(v: Seq<Term>, n: nat, bad: spec_fn(Term) -> bool)
    requires
        never_built(bad),
        none_holds(v, bad),
    ensures
        none_holds(kept_factors(v, n), bad),
    decreases n,
{
    if n == 0 || n > v.len() {
    } else {
        lemma_kept_kept_factors(v, (n - 1) as nat, bad);
        assert(!holds(v[n - 1], bad));
        assert(!holds(bare(v[n - 1]), bad));
        lemma_kept_pushed(kept_factors(v, (n - 1) as nat), bare(v[n - 1]), bad);
    }
}

proof fn lemma_kept_prod_rule(v: Seq<Term>, bad: spec_fn(Term) -> bool)
    requires
        never_built(bad),
        none_holds(v, bad),
    ensures
        !holds(prod_rule(v), bad),
{
    let rest = kept_factors(v, v.len());
    lemma_kept_kept_factors(v, v.len(), bad);
    lemma_kept_collection(rest, bad);
    lemma_kept_merged(Term::Prod(rest), bad);
}

/// What is cleared holds no node of the kind that it did not hold before.
pub proof fn lemma_kept_cleared(t: Term, bad: spec_fn(Term) -> bool)
    requires
        never_built(bad),
        !holds(t, bad),
    ensures
        !holds(cleared(t), bad),
    decreases t, 0nat,
{
    match t {
        Term::Mul(a, b) => {
            lemma_kept_cleared(*a, bad);
            lemma_kept_cleared(*b, bad);
            lemma_kept_mul_rule(cleared(*a), cleared(*b), bad);
        },
        Term::Prod(v) => {
            lemma_kept_collection(v, bad);
            lemma_kept_cleared_each(v, v.len(), bad);
            lemma_kept_prod_rule(cleared_each(v, v.len()), bad);
        },
        Term::Add(a, b) => {
            lemma_kept_cleared(*a, bad);
            lemma_kept_cleared(*b, bad);
            lemma_kept_operators(cleared(*a), cleared(*b), bad);
        },
        Term::Sub(a, b) => {
            lemma_kept_cleared(*a, bad);
            lemma_kept_cleared(*b, bad);
            lemma_kept_operators(cleared(*a), cleared(*b), bad);
        },
        Term::Sum(v) => {
            lemma_kept_collection(v, bad);
            lemma_kept_cleared_each(v, v.len(), bad);
            lemma_kept_collection(cleared_each(v, v.len()), bad);
        },
        Term::Div(a, b) => {
            lemma_kept_cleared(*a, bad);
            lemma_kept_operators(cleared(*a), *b, bad);
        },
        _ => {},
    }
}

proof fn lemma_kept_cleared_each(v: Seq<Term>, n: nat, bad: spec_fn(Term) -> bool)
    requires
        never_built(bad),
        none_holds(v, bad),
    ensures
        none_holds(cleared_each(v, n), bad),
    decreases v, n,
{
    if n == 0 || n > v.len() {
    } else {
        lemma_kept_cleared_each(v, (n - 1) as nat, bad);
        assert(!holds(v[n - 1], bad));
        lemma_kept_cleared(v[n - 1], bad);
        lemma_kept_pushed(cleared_each(v, (n - 1) as nat), cleared(v[n - 1]), bad);
    }
}

proof fn lemma_kept_extracted(t: Term, bad: spec_fn(Term) -> bool)
    requires
        never_built(bad),
        !holds(t, bad),
    ensures
        !holds(extracted(t), bad),
{
    let flat = merged(t);
    lemma_kept_merged(t, bad);
    let c = factors(flat);
    lemma_kept_factors(flat, bad);
    if c.len() > 0 {
        lemma_kept_without(flat, c, bad);
        lemma_kept_cleared(without(flat, c), bad);
        lemma_kept_collection(c, bad);
        lemma_kept_merged(
            Term::Mul(Box::new(Term::Prod(c)), Box::new(cleared(without(flat, c)))),
            bad,
        );
    }
}

proof fn lemma_kept_rules(a: Term, b: Term, bad: spec_fn(Term) -> bool)
    requires
        never_built(bad),
        !holds(a, bad),
        !holds(b, bad),
    ensures
        !holds(add_rule(a, b), bad),
        !holds(sub_rule(a, b), bad),
        !holds(mul_rule(a, b), bad),
        !holds(div_rule(a, b), bad),
{
    lemma_kept_trig(a, b, false, bad);
    lemma_kept_trig(a, b, true, bad);
    lemma_kept_operators(a, b, bad);
    lemma_kept_operators(b, a, bad);
    if let Term::UnSub(x) = b {
        lemma_kept_operators(a, *x, bad);
    }
    if let Term::UnSub(x) = a {
        lemma_kept_operators(b, *x, bad);
        lemma_kept_operators(*x, b, bad);
        lemma_kept_operators(sum_of(*x, b), b, bad);
    }
    lemma_kept_extracted(Term::Add(Box::new(a), Box::new(b)), bad);
    lemma_kept_extracted(Term::Sub(Box::new(a), Box::new(b)), bad);
    lemma_kept_mul_rule(a, b, bad);
    match quotient_of(a, b) {
        Term::Div(n, d) => {
            let c = shared(factors(*n), factors(*d));
            lemma_kept_factors(*n, bad);
            lemma_kept_factors(*d, bad);
            lemma_kept_sets(factors(*n), factors(*d), bad);
            lemma_kept_without(*n, c, bad);
            lemma_kept_without(*d, c, bad);
            lemma_kept_operators(without(*n, c), without(*d, c), bad);
        },
        _ => {},
    }
}

proof fn lemma_kept_plain_terms(v: Seq<Term>, n: nat, bad: spec_fn(Term) -> bool)
    requires
        never_built(bad),
        none_holds(v, bad),
    ensures
        none_holds(plain_terms(v, n), bad),
    decreases n,
{
    if n == 0 || n > v.len() {
    } else {
        lemma_kept_plain_terms(v, (n - 1) as nat, bad);
        lemma_kept_pushed(plain_terms(v, (n - 1) as nat), v[n - 1], bad);
    }
}

proof fn lemma_kept_sum_of_terms(list: Seq<Term>, bad: spec_fn(Term) -> bool)
    requires
        never_built(bad),
        none_holds(list, bad),
    ensures
        !holds(sum_of_terms(list), bad),
{
    if list.len() >= 2 {
        lemma_kept_collection(list, bad);
        lemma_kept_extracted(Term::Sum(list), bad);
    } else if list.len() == 1 {
        assert(!holds(list[0], bad));
    }
}

proof fn lemma_kept_collections(v: Seq<Term>, bad: spec_fn(Term) -> bool)
    requires
        never_built(bad),
        none_holds(v, bad),
    ensures
        !holds(sum_rule(v), bad),
        !holds(prod_rule(v), bad),
{
    let terms = plain_terms(v, v.len());
    lemma_kept_plain_terms(v, v.len(), bad);
    lemma_kept_sum_of_terms(terms, bad);
    let literal = Term::Number(crate::opt::literal_term(v, v.len()));
    lemma_kept_pushed(terms, literal, bad);
    lemma_kept_sum_of_terms(terms.push(literal), bad);
    lemma_kept_prod_rule(v, bad);
}

/// One pass brings in no node of the kind.
pub proof fn lemma_kept_reduced(t: Term, bad: spec_fn(Term) -> bool)
    requires
        never_built(bad),
        !holds(t, bad),
    ensures
        !holds(reduced(t), bad),
    decreases t, 0nat,
{
    match t {
        Term::Sqrt(s) => {
            lemma_kept_reduced(*s, bad);
        },
        Term::Sin(s) => {
            lemma_kept_reduced(*s, bad);
            lemma_kept_operators(reduced(*s), reduced(*s), bad);
        },
        Term::Cos(s) => {
            lemma_kept_reduced(*s, bad);
            lemma_kept_operators(reduced(*s), reduced(*s), bad);
        },
        Term::UnSub(s) => {
            lemma_kept_reduced(*s, bad);
            lemma_kept_operators(reduced(*s), reduced(*s), bad);
        },
        Term::Add(a, b) => {
            lemma_kept_reduced(*a, bad);
            lemma_kept_reduced(*b, bad);
            lemma_kept_rules(reduced(*a), reduced(*b), bad);
        },
        Term::Sub(a, b) => {
            lemma_kept_reduced(*a, bad);
            lemma_kept_reduced(*b, bad);
            lemma_kept_rules(reduced(*a), reduced(*b), bad);
        },
        Term::Mul(a, b) => {
            lemma_kept_reduced(*a, bad);
            lemma_kept_reduced(*b, bad);
            lemma_kept_rules(reduced(*a), reduced(*b), bad);
        },
        Term::Div(a, b) => {
            lemma_kept_reduced(*a, bad);
            lemma_kept_reduced(*b, bad);
            lemma_kept_rules(reduced(*a), reduced(*b), bad);
        },
        Term::Sum(v) => {
            lemma_kept_collection(v, bad);
            lemma_kept_reduced_each(v, v.len(), bad);
            lemma_kept_collections(reduced_each(v, v.len()), bad);
        },
        Term::Prod(v) => {
            lemma_kept_collection(v, bad);
            lemma_kept_reduced_each(v, v.len(), bad);
            lemma_kept_collections(reduced_each(v, v.len()), bad);
        },
        _ => {},
    }
}

proof fn lemma_kept_reduced_each(v: Seq<Term>, n: nat, bad: spec_fn(Term) -> bool)
    requires
        never_built(bad),
        none_holds(v, bad),
    ensures
        none_holds(reduced_each(v, n), bad),
    decreases v, n,
{
    if n == 0 || n > v.len() {
    } else {
        lemma_kept_reduced_each(v, (n - 1) as nat, bad);
        lemma_kept_reduced(v[n - 1], bad);
        lemma_kept_pushed(reduced_each(v, (n - 1) as nat), reduced(v[n - 1]), bad);
    }
}

/// The driver brings in no node of the kind, where the passes come to rest
/// or the kind is no kind of mark.
pub proof fn lemma_kept_settled(t: Term, fuel: nat, bad: spec_fn(Term) -> bool)
    requires
        never_built(bad),
        !holds(t, bad),
        crate::opt::rests(t, fuel) || forall|x: Term| #[trigger] bad(x) ==> !(x is Nop),
    ensures
        !holds(settled(t, fuel), bad),
    decreases fuel,
{
    lemma_kept_reduced(t, bad);
    if reduced(t) != t && fuel > 0 {
        lemma_kept_settled(reduced(t), (fuel - 1) as nat, bad);
    }
}

} // verus!
