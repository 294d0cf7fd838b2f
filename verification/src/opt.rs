//! The simplifier.
//!
//! One pass rewrites an expression from its leaves up: operands first, then
//! the node itself by the first rule that applies to it. The driver repeats
//! the pass until it changes nothing more.
use crate::arith::{
    cosine_of, difference_folds, difference_of, is_negative, is_one, negated, product_of,
    quotient_of, sine_of, sum_folds, sum_of, unsigned, SignInversion,
};
use crate::canon::{merge, merge_operation, merged};
use crate::literal::{is_zero_literal, lit_is_zero, lit_sum, literal_sum, NEG_ONE, ONE, POS_ZERO};
use crate::order::sorted;
use crate::syms::{terms_of, Operation, Sym, Term};
use crate::terms::{combined, put, remaining, shared, CommonTerms};
use vstd::prelude::*;

verus! {

/// The most passes that the driver makes over one expression.
pub const PASS_LIMIT: usize = 64;

/// Whether an expression is zero by its form alone: a literal zero, the
/// negation of such an expression, a product with such a factor, or a sum of
/// such terms only.
pub open spec fn vanishes(t: Term) -> bool
    decreases t, 0nat,
{
    match t {
        Term::Number(b) => lit_is_zero(b),
        Term::UnSub(s) => vanishes(*s),
        Term::Nop(s) => vanishes(*s),
        Term::Sum(v) => all_vanish(v, v.len()),
        Term::Prod(v) => any_vanishes(v, v.len()),
        _ => false,
    }
}

/// Whether each of the first `n` members vanishes.
pub open spec fn all_vanish(v: Seq<Term>, n: nat) -> bool
    decreases v, n,
{
    if n == 0 || n > v.len() {
        true
    } else {
        all_vanish(v, (n - 1) as nat) && vanishes(v[n - 1])
    }
}

/// Whether one of the first `n` members vanishes.
pub open spec fn any_vanishes(v: Seq<Term>, n: nat) -> bool
    decreases v, n,
{
    if n == 0 || n > v.len() {
        false
    } else {
        any_vanishes(v, (n - 1) as nat) || vanishes(v[n - 1])
    }
}

/// An expression that factoring treats as one piece: a root, a sine, a
/// cosine or a negation.
pub open spec fn atomic(t: Term) -> bool {
    t is Cos || t is Sqrt || t is Sin || t is UnSub
}

/// The atomic factors that an expression has: a leaf or an atomic
/// expression is its own factor; a product has the factors of its members;
/// a sum or a difference has the factors that all its terms share; a
/// quotient has those of its numerator that its denominator lacks.
pub open spec fn factors(t: Term) -> Seq<Term>
    decreases t, 0nat,
{
    match t {
        Term::Number(_) => put(Seq::empty(), t),
        Term::Identifier(_) => put(Seq::empty(), t),
        Term::Constant(_) => put(Seq::empty(), t),
        Term::Sqrt(_) => put(Seq::empty(), t),
        Term::Sin(_) => put(Seq::empty(), t),
        Term::Cos(_) => put(Seq::empty(), t),
        Term::UnSub(_) => put(Seq::empty(), t),
        Term::Mul(a, b) => combined(factors(*a), factors(*b)),
        Term::Prod(v) => factors_of_all(v, v.len()),
        Term::Add(a, b) => shared(factors(*a), factors(*b)),
        Term::Sub(a, b) => shared(factors(*a), factors(*b)),
        Term::Sum(v) => factors_of_each(v, v.len()),
        Term::Div(a, b) => remaining(factors(*a), factors(*b)),
        Term::Rem(_, _) => Seq::empty(),
        Term::Nop(_) => Seq::empty(),
    }
}

/// The factors of the first `n` members of a product, together.
pub open spec fn factors_of_all(v: Seq<Term>, n: nat) -> Seq<Term>
    decreases v, n,
{
    if n == 0 || n > v.len() {
        Seq::empty()
    } else {
        combined(factors_of_all(v, (n - 1) as nat), factors(v[n - 1]))
    }
}

/// The factors that each of the first `n` terms of a sum has.
pub open spec fn factors_of_each(v: Seq<Term>, n: nat) -> Seq<Term>
    decreases v, n,
{
    if n == 0 || n > v.len() {
        Seq::empty()
    } else if n == 1 {
        factors(v[0])
    } else {
        shared(factors_of_each(v, (n - 1) as nat), factors(v[n - 1]))
    }
}

/// An expression with each of the factors `c` taken out once: where a
/// factor stood, the literal one stands. Nothing is folded: `x·y + x·z`
/// without `x` is `1·y + 1·z`; [`cleared`] makes `y + z` of it. In a
/// product each factor leaves the first member that has it; in a sum or a
/// difference it leaves every term; in a quotient it leaves the numerator.
/// A remainder, and what is marked as reduced, stays as it is.
pub open spec fn without(t: Term, c: Seq<Term>) -> Term
    decreases t, 0nat,
{
    if c.len() == 0 {
        t
    } else {
        match t {
            Term::Mul(a, b) => {
                let first = shared(c, factors(*a));
                Term::Mul(
                    Box::new(without(*a, first)),
                    Box::new(without(*b, remaining(c, first))),
                )
            },
            Term::Prod(v) => Term::Prod(without_in_turn(v, c, v.len()).0),
            Term::Add(a, b) => Term::Add(Box::new(without(*a, c)), Box::new(without(*b, c))),
            Term::Sub(a, b) => Term::Sub(Box::new(without(*a, c)), Box::new(without(*b, c))),
            Term::Sum(v) => Term::Sum(without_in_each(v, c, v.len())),
            Term::Div(a, b) => Term::Div(Box::new(without(*a, c)), b),
            Term::Rem(_, _) => t,
            Term::Nop(_) => t,
            _ => if c.contains(t) {
                Term::Number(ONE)
            } else {
                t
            },
        }
    }
}

/// The first `n` members of a product with the factors `c` taken out, each
/// from the first member that has it; and the factors still to take out.
pub open spec fn without_in_turn(v: Seq<Term>, c: Seq<Term>, n: nat) -> (Seq<Term>, Seq<Term>)
    decreases v, n,
{
    if n == 0 || n > v.len() {
        (Seq::empty(), c)
    } else {
        let (done, left) = without_in_turn(v, c, (n - 1) as nat);
        let here = shared(left, factors(v[n - 1]));
        (done.push(without(v[n - 1], here)), remaining(left, here))
    }
}

/// The first `n` terms of a sum, each with the factors `c` taken out.
pub open spec fn without_in_each(v: Seq<Term>, c: Seq<Term>, n: nat) -> Seq<Term>
    decreases v, n,
{
    if n == 0 || n > v.len() {
        Seq::empty()
    } else {
        without_in_each(v, c, (n - 1) as nat).push(without(v[n - 1], c))
    }
}

/// The two factors of a product of two.
pub open spec fn pair_of(t: Term) -> Option<(Term, Term)> {
    match t {
        Term::Mul(a, b) => Some((*a, *b)),
        Term::Prod(v) => if v.len() == 2 {
            Some((v[0], v[1]))
        } else {
            None
        },
        _ => None,
    }
}

/// The angles `(x, y)` of a product `sin x · cos y`, its factors in either
/// order.
pub open spec fn sine_cosine(p: (Term, Term)) -> Option<(Term, Term)> {
    match p {
        (Term::Sin(x), Term::Cos(y)) => Some((*x, *y)),
        (Term::Cos(y), Term::Sin(x)) => Some((*x, *y)),
        _ => None,
    }
}

/// The angles of a product of two cosines.
pub open spec fn two_cosines(p: (Term, Term)) -> Option<(Term, Term)> {
    match p {
        (Term::Cos(x), Term::Cos(y)) => Some((*x, *y)),
        _ => None,
    }
}

/// The angles of a product of two sines.
pub open spec fn two_sines(p: (Term, Term)) -> Option<(Term, Term)> {
    match p {
        (Term::Sin(x), Term::Sin(y)) => Some((*x, *y)),
        _ => None,
    }
}

/// The same two angles, in either order.
pub open spec fn same_angles(p: (Term, Term), q: (Term, Term)) -> bool {
    (p.0 == q.0 && p.1 == q.1) || (p.0 == q.1 && p.1 == q.0)
}

/// The sum of two angles, or their difference, as it stands: nothing is
/// folded or ordered, which is the next pass's work.
pub open spec fn angle(x: Term, y: Term, plus: bool) -> Term {
    if plus {
        Term::Add(Box::new(x), Box::new(y))
    } else {
        Term::Sub(Box::new(x), Box::new(y))
    }
}

/// `sin x cos y ± cos x sin y = sin(x ± y)`, for the products `p` and `q`.
pub open spec fn sine_theorem(p: (Term, Term), q: (Term, Term), minus: bool) -> Option<Term> {
    match (sine_cosine(p), sine_cosine(q)) {
        (Some((x, y)), Some((u, w))) => if x == w && y == u {
            Some(Term::Sin(Box::new(angle(x, y, !minus))))
        } else {
            None
        },
        _ => None,
    }
}

/// `cos x cos y ∓ sin x sin y = cos(x ± y)`, for the products `p` and `q`.
pub open spec fn cosine_theorem(p: (Term, Term), q: (Term, Term), minus: bool) -> Option<Term> {
    match (two_cosines(p), two_sines(q)) {
        (Some((x, y)), Some((u, w))) => if same_angles((x, y), (u, w)) {
            Some(Term::Cos(Box::new(angle(x, y, minus))))
        } else {
            None
        },
        _ => None,
    }
}

/// What `a + b`, or with `minus` `a - b`, is by the addition theorems:
///
/// - `sin x cos y + cos x sin y = sin(x + y)`
/// - `sin x cos y - cos x sin y = sin(x - y)`
/// - `cos x cos y - sin x sin y = cos(x + y)`
/// - `cos x cos y + sin x sin y = cos(x - y)`, its two products in either
///   order
///
/// and nothing where none of them has this form. What is returned is a
/// sine or a cosine of an addition or a subtraction of the two angles.
pub open spec fn trig_identity(a: Term, b: Term, minus: bool) -> Option<Term> {
    match (pair_of(a), pair_of(b)) {
        (Some(p), Some(q)) => {
            if sine_theorem(p, q, minus) is Some {
                sine_theorem(p, q, minus)
            } else if cosine_theorem(p, q, minus) is Some {
                cosine_theorem(p, q, minus)
            } else if !minus {
                cosine_theorem(q, p, false)
            } else {
                None
            }
        },
        _ => None,
    }
}

/// What is left of an expression after factors were taken out of it,
/// simplified again as far as the factors went: through products, sums,
/// differences and numerators. A product is rewritten by the rules of the
/// pass for products, so the ones that stand where factors stood leave it;
/// a sum, a difference and a quotient are built anew by the operators. A
/// sum of many terms keeps its terms, each of them cleared.
pub open spec fn cleared(t: Term) -> Term
    decreases t, 0nat,
{
    match t {
        Term::Mul(a, b) => mul_rule(cleared(*a), cleared(*b)),
        Term::Prod(v) => prod_rule(cleared_each(v, v.len())),
        Term::Add(a, b) => sum_of(cleared(*a), cleared(*b)),
        Term::Sub(a, b) => difference_of(cleared(*a), cleared(*b)),
        Term::Sum(v) => Term::Sum(cleared_each(v, v.len())),
        Term::Div(a, b) => quotient_of(cleared(*a), *b),
        _ => t,
    }
}

/// The first `n` members, each cleared.
pub open spec fn cleared_each(v: Seq<Term>, n: nat) -> Seq<Term>
    decreases v, n,
{
    if n == 0 || n > v.len() {
        Seq::empty()
    } else {
        cleared_each(v, (n - 1) as nat).push(cleared(v[n - 1]))
    }
}

/// A sum or a difference, merged and ordered, with the factors that all
/// its terms share in front of it: `c1 · c2 · (rest)`. The rest is what is
/// left of the terms without those factors, cleared: `x·y + x·z` becomes
/// `x · (y + z)`.
pub open spec fn extracted(t: Term) -> Term {
    let flat = merged(t);
    let c = factors(flat);
    if c.len() == 0 {
        flat
    } else {
        merged(Term::Mul(Box::new(Term::Prod(c)), Box::new(cleared(without(flat, c)))))
    }
}

/// What the pass makes of `a + b`, both operands rewritten.
pub open spec fn add_rule(a: Term, b: Term) -> Term {
    if trig_identity(a, b, false) is Some {
        trig_identity(a, b, false)->0
    } else if vanishes(a) {
        b
    } else if vanishes(b) {
        a
    } else if b is UnSub {
        difference_of(a, *b->UnSub_0)
    } else if a is UnSub {
        difference_of(b, *a->UnSub_0)
    } else if sum_folds(a, b) {
        sum_of(a, b)
    } else {
        extracted(Term::Add(Box::new(a), Box::new(b)))
    }
}

/// What the pass makes of `a - b`, both operands rewritten.
pub open spec fn sub_rule(a: Term, b: Term) -> Term {
    if trig_identity(a, b, true) is Some {
        trig_identity(a, b, true)->0
    } else if vanishes(b) {
        a
    } else if vanishes(a) {
        negated(b)
    } else if b is UnSub {
        sum_of(a, *b->UnSub_0)
    } else if a is UnSub {
        negated(sum_of(*a->UnSub_0, b))
    } else if difference_folds(a, b) {
        difference_of(a, b)
    } else {
        extracted(Term::Sub(Box::new(a), Box::new(b)))
    }
}

/// What the pass makes of `a * b`, both operands rewritten.
pub open spec fn mul_rule(a: Term, b: Term) -> Term {
    if vanishes(a) || vanishes(b) {
        Term::Number(POS_ZERO)
    } else {
        match product_of(a, b) {
            Term::Mul(x, y) => merged(Term::Mul(x, y)),
            Term::UnSub(inner) => if *inner is Mul {
                Term::UnSub(Box::new(merged(*inner)))
            } else {
                Term::UnSub(inner)
            },
            other => other,
        }
    }
}

/// What the pass makes of `a / b`, both operands rewritten: the factors
/// that numerator and denominator share cancel.
pub open spec fn div_rule(a: Term, b: Term) -> Term {
    if vanishes(a) {
        Term::Number(POS_ZERO)
    } else if a == b {
        Term::Number(ONE)
    } else {
        match quotient_of(a, b) {
            Term::Div(n, d) => {
                let c = shared(factors(*n), factors(*d));
                if c.len() == 0 {
                    Term::Div(n, d)
                } else {
                    quotient_of(without(*n, c), without(*d, c))
                }
            },
            other => other,
        }
    }
}

/// Those of the first `n` terms that are no literals and do not vanish.
pub open spec fn plain_terms(v: Seq<Term>, n: nat) -> Seq<Term>
    decreases n,
{
    if n == 0 || n > v.len() {
        Seq::empty()
    } else if vanishes(v[n - 1]) || v[n - 1] is Number {
        plain_terms(v, (n - 1) as nat)
    } else {
        plain_terms(v, (n - 1) as nat).push(v[n - 1])
    }
}

/// The sum of the literals among the first `n` terms, added up from the
/// left.
pub open spec fn literal_term(v: Seq<Term>, n: nat) -> u32
    decreases n,
{
    if n == 0 || n > v.len() {
        POS_ZERO
    } else {
        match v[n - 1] {
            Term::Number(b) => lit_sum(literal_term(v, (n - 1) as nat), b),
            _ => literal_term(v, (n - 1) as nat),
        }
    }
}

/// One expression for a list of terms: zero for none, the term itself for
/// one, their sum with the shared factors in front for more.
pub open spec fn sum_of_terms(list: Seq<Term>) -> Term {
    if list.len() == 0 {
        Term::Number(POS_ZERO)
    } else if list.len() == 1 {
        list[0]
    } else {
        extracted(Term::Sum(list))
    }
}

/// What the pass makes of a sum, its terms rewritten: the terms that vanish
/// leave, the literals become one literal.
pub open spec fn sum_rule(v: Seq<Term>) -> Term {
    let rest = plain_terms(v, v.len());
    let literal = literal_term(v, v.len());
    if lit_is_zero(literal) {
        sum_of_terms(rest)
    } else {
        sum_of_terms(rest.push(Term::Number(literal)))
    }
}

/// A factor without the negation in front of it.
pub open spec fn bare(t: Term) -> Term {
    match t {
        Term::UnSub(s) => *s,
        _ => t,
    }
}

/// Whether a factor brings a sign to the product: a negation, or the
/// literal minus one.
pub open spec fn brings_sign(t: Term) -> bool {
    t is UnSub || t == Term::Number(NEG_ONE)
}

/// The first `n` factors, each without the negation in front of it, and
/// without those that are one or minus one.
pub open spec fn kept_factors(v: Seq<Term>, n: nat) -> Seq<Term>
    decreases n,
{
    if n == 0 || n > v.len() {
        Seq::empty()
    } else if is_one(bare(v[n - 1])) || v[n - 1] == Term::Number(NEG_ONE) {
        kept_factors(v, (n - 1) as nat)
    } else {
        kept_factors(v, (n - 1) as nat).push(bare(v[n - 1]))
    }
}

/// Whether an odd number of the first `n` factors bring a sign.
pub open spec fn odd_signs(v: Seq<Term>, n: nat) -> bool
    decreases n,
{
    if n == 0 || n > v.len() {
        false
    } else {
        odd_signs(v, (n - 1) as nat) != brings_sign(v[n - 1])
    }
}

/// What the pass makes of a product, its factors rewritten: zero where a
/// factor vanishes; else a product still, of the factors without their
/// negations and without those that are one or minus one, merged and
/// ordered, with one negation in front where an odd number of factors
/// brought a sign.
pub open spec fn prod_rule(v: Seq<Term>) -> Term {
    if any_vanishes(v, v.len()) {
        Term::Number(POS_ZERO)
    } else {
        let body = merged(Term::Prod(kept_factors(v, v.len())));
        if odd_signs(v, v.len()) {
            Term::UnSub(Box::new(body))
        } else {
            body
        }
    }
}

/// One pass over an expression. A literal, a symbol and a constant stay as
/// they are; so does what is marked as reduced already, and a remainder,
/// which the pass does not understand.
pub open spec fn reduced(t: Term) -> Term
    decreases t, 0nat,
{
    match t {
        Term::Sqrt(s) => Term::Sqrt(Box::new(reduced(*s))),
        Term::Sin(s) => sine_of(reduced(*s)),
        Term::Cos(s) => cosine_of(reduced(*s)),
        Term::UnSub(s) => negated(reduced(*s)),
        Term::Add(a, b) => add_rule(reduced(*a), reduced(*b)),
        Term::Sub(a, b) => sub_rule(reduced(*a), reduced(*b)),
        Term::Mul(a, b) => mul_rule(reduced(*a), reduced(*b)),
        Term::Div(a, b) => div_rule(reduced(*a), reduced(*b)),
        Term::Sum(v) => sum_rule(reduced_each(v, v.len())),
        Term::Prod(v) => prod_rule(reduced_each(v, v.len())),
        _ => t,
    }
}

/// The first `n` members, each after one pass.
pub open spec fn reduced_each(v: Seq<Term>, n: nat) -> Seq<Term>
    decreases v, n,
{
    if n == 0 || n > v.len() {
        Seq::empty()
    } else {
        reduced_each(v, (n - 1) as nat).push(reduced(v[n - 1]))
    }
}

/// An expression that one more pass leaves as it is.
pub open spec fn stable(t: Term) -> bool {
    reduced(t) == t
}

/// The expression after passes until one changes nothing, `fuel + 1` of
/// them at most. Where they do not suffice, the last result is marked as
/// reduced, and left at that.
pub open spec fn settled(t: Term, fuel: nat) -> Term
    decreases fuel,
{
    if reduced(t) == t {
        t
    } else if fuel == 0 {
        Term::Nop(Box::new(reduced(t)))
    } else {
        settled(reduced(t), (fuel - 1) as nat)
    }
}

/// Whether passes over the expression come to rest, `fuel + 1` of them at
/// most.
pub open spec fn rests(t: Term, fuel: nat) -> bool
    decreases fuel,
{
    if reduced(t) == t {
        true
    } else if fuel == 0 {
        false
    } else {
        rests(reduced(t), (fuel - 1) as nat)
    }
}

/// The simplified form of an expression.
pub open spec fn simplified(t: Term) -> Term {
    settled(t, PASS_LIMIT as nat)
}

/// Whether the expression holds a remainder, which the simplifier does not
/// take.
pub open spec fn has_remainder(t: Term) -> bool
    decreases t, 0nat,
{
    match t {
        Term::Rem(_, _) => true,
        Term::Sqrt(s) => has_remainder(*s),
        Term::Sin(s) => has_remainder(*s),
        Term::Cos(s) => has_remainder(*s),
        Term::UnSub(s) => has_remainder(*s),
        Term::Nop(s) => has_remainder(*s),
        Term::Add(a, b) => has_remainder(*a) || has_remainder(*b),
        Term::Sub(a, b) => has_remainder(*a) || has_remainder(*b),
        Term::Mul(a, b) => has_remainder(*a) || has_remainder(*b),
        Term::Div(a, b) => has_remainder(*a) || has_remainder(*b),
        Term::Sum(v) => any_has_remainder(v, v.len()),
        Term::Prod(v) => any_has_remainder(v, v.len()),
        _ => false,
    }
}

/// Whether one of the first `n` members holds a remainder.
pub open spec fn any_has_remainder(v: Seq<Term>, n: nat) -> bool
    decreases v, n,
{
    if n == 0 || n > v.len() {
        false
    } else {
        any_has_remainder(v, (n - 1) as nat) || has_remainder(v[n - 1])
    }
}

/// What the driver returns is stable.
pub proof fn lemma_settled_is_stable(t: Term, fuel: nat)
    ensures
        stable(settled(t, fuel)),
    decreases fuel,
{
    if reduced(t) == t {
    } else if fuel == 0 {
    } else {
        lemma_settled_is_stable(reduced(t), (fuel - 1) as nat);
    }
}

/// A simplified expression is a fixed point of the pass.
pub proof fn lemma_simplified_is_stable(t: Term)
    ensures
        reduced(simplified(t)) == simplified(t),
{
    lemma_settled_is_stable(t, PASS_LIMIT as nat);
}

/// Simplifying twice gives what simplifying once gives.
pub proof fn lemma_simplified_idempotent(t: Term)
    ensures
        simplified(simplified(t)) == simplified(t),
{
    lemma_simplified_is_stable(t);
}

/// A literal, a symbol and a constant are simplified as they stand.
pub proof fn lemma_leaves_are_simplified(t: Term)
    requires
        t is Number || t is Identifier || t is Constant,
    ensures
        simplified(t) == t,
{
}

/// Simplifying `a * 1` or `a + 0` gives what simplifying `a` gives, for
/// every expression but the literal that is no number, and the literal
/// negative zero, which plus zero is the positive zero.
pub proof fn lemma_identities_are_eliminated(a: Term)
    requires
        a matches Term::Number(b) ==> !crate::literal::lit_is_nan(b) && b
            != crate::literal::NEG_ZERO,
    ensures
        simplified(product_of(a, Term::Number(ONE))) == simplified(a),
        simplified(sum_of(a, Term::Number(POS_ZERO))) == simplified(a),
{
    crate::arith::lemma_identities(a);
}

/// Simplifying `a - a` gives zero, written as the negated zero.
pub proof fn lemma_self_difference_is_zero(a: Term)
    requires
        !(a is Number),
    ensures
        simplified(difference_of(a, a)) == Term::Number(crate::literal::NEG_ZERO),
{
    crate::arith::lemma_self_difference(a);
}

/// The cosine of pi simplifies to minus one, the sine of zero to zero.
pub proof fn lemma_exact_angles_are_simplified()
    ensures
        simplified(Term::Cos(Box::new(crate::arith::pi_term()))) == Term::Number(
            crate::literal::NEG_ONE,
        ),
        simplified(Term::Sin(Box::new(Term::Number(POS_ZERO)))) == Term::Number(POS_ZERO),
{
    reveal_with_fuel(settled, 2);
    reveal_with_fuel(reduced, 2);
    assert(reduced(Term::Cos(Box::new(crate::arith::pi_term()))) == Term::Number(
        crate::literal::NEG_ONE,
    ));
    assert(reduced(Term::Sin(Box::new(Term::Number(POS_ZERO)))) == Term::Number(POS_ZERO));
}

/// `sin a · cos b + cos a · sin b` is rewritten to the sine of the addition
/// of `a` and `b`, whatever the angles are; with a minus, to the sine of
/// their subtraction.
pub proof fn lemma_sine_of_a_sum(a: Term, b: Term)
    ensures
        add_rule(
            Term::Mul(Box::new(Term::Sin(Box::new(a))), Box::new(Term::Cos(Box::new(b)))),
            Term::Mul(Box::new(Term::Cos(Box::new(a))), Box::new(Term::Sin(Box::new(b)))),
        ) == Term::Sin(Box::new(Term::Add(Box::new(a), Box::new(b)))),
        sub_rule(
            Term::Mul(Box::new(Term::Sin(Box::new(a))), Box::new(Term::Cos(Box::new(b)))),
            Term::Mul(Box::new(Term::Cos(Box::new(a))), Box::new(Term::Sin(Box::new(b)))),
        ) == Term::Sin(Box::new(Term::Sub(Box::new(a), Box::new(b)))),
{
}

/// A product stays a product: of one factor too, and with its literals as
/// they are.
pub proof fn lemma_product_stays(v: Seq<Term>)
    requires
        !any_vanishes(v, v.len()),
    ensures
        prod_rule(v) is Prod || (prod_rule(v) matches Term::UnSub(p) && *p is Prod),
        prod_rule(v) is UnSub <==> odd_signs(v, v.len()),
{
}

/// Where a factor is taken out, the literal one stands, and nothing is
/// folded: `x·y + x·z` without the symbol `x` is `1·y + 1·z`, whatever `y`
/// and `z` are.
pub proof fn lemma_factor_leaves_one(x: Term, y: Term, z: Term)
    requires
        x is Identifier,
    ensures
        without(
            Term::Add(
                Box::new(Term::Mul(Box::new(x), Box::new(y))),
                Box::new(Term::Mul(Box::new(x), Box::new(z))),
            ),
            seq![x],
        ) == Term::Add(
            Box::new(Term::Mul(Box::new(Term::Number(ONE)), Box::new(y))),
            Box::new(Term::Mul(Box::new(Term::Number(ONE)), Box::new(z))),
        ),
{
    let c = seq![x];
    let fx = factors(x);
    assert(fx =~= seq![x]);
    assert(fx[0] == x);
    assert(c[0] == x);
    assert(fx.contains(x));
    reveal_with_fuel(crate::terms::picked, 2);
    let first = shared(c, fx);
    assert(first =~= seq![x]);
    assert(first[0] == x);
    assert(first.contains(x));
    let rest = remaining(c, first);
    assert(rest =~= Seq::<Term>::empty());
    reveal_with_fuel(without, 3);
    assert(without(x, first) == Term::Number(ONE));
    assert(without(y, rest) == y);
    assert(without(z, rest) == z);
}

/// A factor that both terms of a sum share comes out in one step, and no
/// one is left where it stood: `x·y + x·z` becomes the product of `x` and
/// the addition of `y` and `z`, for three different symbols. Which of `y`
/// and `z` stands first follows the order of the two terms.
pub proof fn lemma_shared_factor_comes_out(x: Term, y: Term, z: Term)
    requires
        x is Identifier,
        y is Identifier,
        z is Identifier,
        x != y,
        x != z,
        y != z,
    ensures
        ({
            let a = Term::Mul(Box::new(x), Box::new(y));
            let b = Term::Mul(Box::new(x), Box::new(z));
            let rest = if crate::order::term_le(a, b) {
                Term::Add(Box::new(y), Box::new(z))
            } else {
                Term::Add(Box::new(z), Box::new(y))
            };
            add_rule(a, b) == Term::Prod(seq![x, rest])
        }),
{
    let a = Term::Mul(Box::new(x), Box::new(y));
    let b = Term::Mul(Box::new(x), Box::new(z));
    if crate::order::term_le(a, b) {
        lemma_factor_in_front(x, y, z);
    } else {
        lemma_factor_in_front(x, z, y);
    }
    let sum = Term::Add(Box::new(a), Box::new(b));
    let flat = if crate::order::term_le(a, b) {
        sum
    } else {
        Term::Add(Box::new(b), Box::new(a))
    };
    assert(merged(sum) == flat);
    assert(factors(flat).len() == 1);
    assert(trig_identity(a, b, false) is None);
    assert(!vanishes(a) && !vanishes(b));
    assert(!sum_folds(a, b));
    assert(add_rule(a, b) == extracted(sum));
}

proof fn lemma_factor_in_front(x: Term, y: Term, z: Term)
    requires
        x is Identifier,
        y is Identifier,
        z is Identifier,
        x != y,
        x != z,
        y != z,
    ensures
        ({
            let flat = Term::Add(
                Box::new(Term::Mul(Box::new(x), Box::new(y))),
                Box::new(Term::Mul(Box::new(x), Box::new(z))),
            );
            let front = Term::Prod(factors(flat));
            let rest = Term::Add(Box::new(y), Box::new(z));
            &&& factors(flat) == seq![x]
            &&& merged(
                Term::Mul(Box::new(front), Box::new(cleared(without(flat, factors(flat))))),
            ) == Term::Prod(seq![x, rest])
        }),
{
    let flat = Term::Add(
        Box::new(Term::Mul(Box::new(x), Box::new(y))),
        Box::new(Term::Mul(Box::new(x), Box::new(z))),
    );
    lemma_only_factor(x, y, z);
    assert(factors(flat) == seq![x]);
    lemma_factor_leaves_one(x, y, z);
    lemma_ones_leave(y, z);
    lemma_front_and_rest(x, Term::Add(Box::new(y), Box::new(z)));
}

proof fn lemma_only_factor(x: Term, y: Term, z: Term)
    requires
        x is Identifier,
        y is Identifier,
        z is Identifier,
        x != y,
        x != z,
        y != z,
    ensures
        factors(
            Term::Add(
                Box::new(Term::Mul(Box::new(x), Box::new(y))),
                Box::new(Term::Mul(Box::new(x), Box::new(z))),
            ),
        ) == seq![x],
{
    let fp = factors(Term::Mul(Box::new(x), Box::new(y)));
    let fq = factors(Term::Mul(Box::new(x), Box::new(z)));
    assert(factors(x) =~= seq![x]);
    assert(factors(y) =~= seq![y]);
    assert(factors(z) =~= seq![z]);
    assert(fp =~= seq![x, y]);
    assert(fq =~= seq![x, z]);
    assert(fq[0] == x && fq[1] == z);
    assert(fq.contains(x));
    assert(!fq.contains(y));
    reveal_with_fuel(crate::terms::picked, 3);
    assert(shared(fp, fq) =~= seq![x]);
}

proof fn lemma_ones_leave(y: Term, z: Term)
    requires
        y is Identifier,
        z is Identifier,
        y != z,
    ensures
        cleared(
            Term::Add(
                Box::new(Term::Mul(Box::new(Term::Number(ONE)), Box::new(y))),
                Box::new(Term::Mul(Box::new(Term::Number(ONE)), Box::new(z))),
            ),
        ) == Term::Add(Box::new(y), Box::new(z)),
{
    let one = Term::Number(ONE);
    reveal_with_fuel(cleared, 3);
    assert(cleared(one) == one);
    assert(cleared(y) == y);
    assert(cleared(z) == z);
    assert(mul_rule(one, y) == y);
    assert(mul_rule(one, z) == z);
    assert(cleared(Term::Mul(Box::new(one), Box::new(y))) == y);
    assert(cleared(Term::Mul(Box::new(one), Box::new(z))) == z);
}

proof fn lemma_front_and_rest(x: Term, rest: Term)
    requires
        x is Identifier,
        rest is Add,
    ensures
        merged(Term::Mul(Box::new(Term::Prod(seq![x])), Box::new(rest))) == Term::Prod(
            seq![x, rest],
        ),
{
    let whole = Term::Mul(Box::new(Term::Prod(seq![x])), Box::new(rest));
    reveal_with_fuel(crate::canon::mul_terms, 3);
    reveal_with_fuel(crate::canon::mul_terms_of, 3);
    assert(crate::canon::mul_terms(Term::Prod(seq![x])) =~= seq![x]);
    assert(crate::canon::mul_terms(rest) =~= seq![rest]);
    assert(crate::canon::mul_terms(whole) =~= seq![x, rest]);
    let pair = seq![x, rest];
    assert(crate::order::term_le(x, rest)) by {
        reveal_with_fuel(crate::order::lex_le_from, 1);
        assert(crate::order::key(x)[0] == 0);
        assert(crate::order::key(rest)[0] == 3);
    }
    assert(vstd::relations::sorted_by(pair, crate::order::term_order()));
    crate::order::lemma_sorted_is_unique(pair, pair);
}

/// A symbol, a constant, a literal that is not zero, or the negation of a
/// symbol.
pub open spec fn is_plain_factor(t: Term) -> bool {
    match t {
        Term::Identifier(_) => true,
        Term::Constant(_) => true,
        Term::Number(b) => !lit_is_zero(b),
        Term::UnSub(s) => *s is Identifier,
        _ => false,
    }
}

/// A product of plain factors becomes the product of what is kept of them,
/// in canonical order, with a negation in front where an odd number of
/// them were negations or minus one; and no factor of it is a negation,
/// one or minus one.
pub proof fn lemma_product_of_plain_factors(v: Seq<Term>)
    requires
        forall|i: int| 0 <= i < v.len() ==> is_plain_factor(#[trigger] v[i]),
    ensures
        !odd_signs(v, v.len()) ==> prod_rule(v) == Term::Prod(sorted(kept_factors(v, v.len()))),
        odd_signs(v, v.len()) ==> prod_rule(v) == Term::UnSub(
            Box::new(Term::Prod(sorted(kept_factors(v, v.len())))),
        ),
        forall|i: int|
            0 <= i < sorted(kept_factors(v, v.len())).len() ==> {
                let w = #[trigger] sorted(kept_factors(v, v.len()))[i];
                !(w is UnSub) && w != Term::Number(ONE) && w != Term::Number(NEG_ONE)
            },
{
    let kept = kept_factors(v, v.len());
    lemma_plain_factors_kept(v, v.len());
    lemma_plain_factors_do_not_vanish(v, v.len());
    assert(crate::canon::none_is(kept, crate::canon::multiplicative()));
    crate::canon::lemma_mul_terms_of_flat(kept, kept.len());
    assert(kept.take(kept.len() as int) =~= kept);
    crate::order::lemma_sorted(kept);
    assert forall|i: int| 0 <= i < sorted(kept).len() implies {
        let w = #[trigger] sorted(kept)[i];
        !(w is UnSub) && w != Term::Number(ONE) && w != Term::Number(NEG_ONE)
    } by {
        let w = sorted(kept)[i];
        assert(sorted(kept).contains(w));
        assert(kept.contains(w));
        let j = choose|j: int| 0 <= j < kept.len() && kept[j] == w;
        assert(is_kept_leaf(kept[j]));
    }
}

/// A symbol, a constant, or a literal that is not zero, one or minus one.
pub open spec fn is_kept_leaf(t: Term) -> bool {
    match t {
        Term::Identifier(_) => true,
        Term::Constant(_) => true,
        Term::Number(b) => !lit_is_zero(b) && b != ONE && b != NEG_ONE,
        _ => false,
    }
}

proof fn lemma_plain_factors_kept(v: Seq<Term>, n: nat)
    requires
        forall|i: int| 0 <= i < v.len() ==> is_plain_factor(#[trigger] v[i]),
    ensures
        forall|j: int|
            0 <= j < kept_factors(v, n).len() ==> is_kept_leaf(#[trigger] kept_factors(v, n)[j]),
    decreases n,
{
    if n == 0 || n > v.len() {
    } else {
        lemma_plain_factors_kept(v, (n - 1) as nat);
        assert(is_plain_factor(v[n - 1]));
        let before = kept_factors(v, (n - 1) as nat);
        let now = kept_factors(v, n);
        assert forall|j: int| 0 <= j < now.len() implies is_kept_leaf(#[trigger] now[j]) by {
            if j < before.len() {
                assert(now[j] == before[j]);
            } else {
                assert(now[j] == bare(v[n - 1]));
            }
        }
    }
}

proof fn lemma_plain_factors_do_not_vanish(v: Seq<Term>, n: nat)
    requires
        forall|i: int| 0 <= i < v.len() ==> is_plain_factor(#[trigger] v[i]),
    ensures
        !any_vanishes(v, n),
    decreases n,
{
    if n == 0 || n > v.len() {
    } else {
        lemma_plain_factors_do_not_vanish(v, (n - 1) as nat);
        assert(is_plain_factor(v[n - 1]));
        reveal_with_fuel(vanishes, 2);
        assert(!vanishes(v[n - 1]));
    }
}

/// Whether an expression is zero by its form alone.
pub fn is_zero_sym(op: &Sym) -> (r: bool)
    ensures
        r == vanishes(op@),
    decreases op, 0nat,
{
    match op {
        Sym::Number(b) => is_zero_literal(*b),
        Sym::Operation(o) => is_zero(o),
        _ => false,
    }
}

fn every_zero(v: &Vec<Sym>) -> (r: bool)
    ensures
        r == all_vanish(terms_of(v@), v@.len()),
    decreases v, 1nat,
{
    let mut i: usize = 0;
    while i < v.len()
        invariant
            i <= v.len(),
            all_vanish(terms_of(v@), i as nat),
        decreases v.len() - i,
    {
        if !is_zero_sym(&v[i]) {
            proof {
                lemma_all_vanish_stops(terms_of(v@), i as int, v@.len());
            }
            return false;
        }
        i += 1;
    }
    true
}

fn some_zero(v: &Vec<Sym>) -> (r: bool)
    ensures
        r == any_vanishes(terms_of(v@), v@.len()),
    decreases v, 1nat,
{
    let mut i: usize = 0;
    while i < v.len()
        invariant
            i <= v.len(),
            !any_vanishes(terms_of(v@), i as nat),
        decreases v.len() - i,
    {
        if is_zero_sym(&v[i]) {
            proof {
                lemma_any_vanishes_holds(terms_of(v@), i as int, v@.len());
            }
            return true;
        }
        i += 1;
    }
    false
}

proof fn lemma_all_vanish_stops(v: Seq<Term>, i: int, n: nat)
    requires
        0 <= i < n <= v.len(),
        !vanishes(v[i]),
    ensures
        !all_vanish(v, n),
    decreases n,
{
    if n - 1 > i {
        lemma_all_vanish_stops(v, i, (n - 1) as nat);
    }
}

proof fn lemma_any_vanishes_holds(v: Seq<Term>, i: int, n: nat)
    requires
        0 <= i < n <= v.len(),
        vanishes(v[i]),
    ensures
        any_vanishes(v, n),
    decreases n,
{
    if n - 1 > i {
        lemma_any_vanishes_holds(v, i, (n - 1) as nat);
    }
}

/// Whether a compound expression is zero by its form alone.
pub fn is_zero(op: &Operation) -> (r: bool)
    ensures
        r == vanishes(op@),
    decreases op, 0nat,
{
    match op {
        Operation::UnSub(s) => is_zero_sym(s),
        Operation::Nop(s) => is_zero_sym(s),
        Operation::Sum(v) => every_zero(v),
        Operation::Prod(v) => some_zero(v),
        _ => false,
    }
}

/// Whether factoring treats a compound expression as one piece.
pub fn is_atomic(op: &Operation) -> (r: bool)
    ensures
        r == atomic(op@),
{
    match op {
        Operation::Cos(_) => true,
        Operation::Sqrt(_) => true,
        Operation::Sin(_) => true,
        Operation::UnSub(_) => true,
        _ => false,
    }
}

/// What a negation negates; nothing for any other expression.
pub fn is_unsub(op: &Sym) -> (r: Option<Sym>)
    ensures
        match r {
            Some(s) => op@ == Term::UnSub(Box::new(s@)),
            None => !(op@ is UnSub),
        },
{
    match op {
        Sym::Operation(o) => match &**o {
            Operation::UnSub(s) => Some(s.duplicate()),
            _ => None,
        },
        _ => None,
    }
}

fn factors_of_sym(s: &Sym) -> (r: CommonTerms)
    ensures
        r.wf(),
        r@ == factors(s@),
    decreases s, 0nat,
{
    match s {
        Sym::Operation(o) => match &**o {
            Operation::Mul(a, b) => {
                let x = factors_of_sym(a);
                let y = factors_of_sym(b);
                x.combine(&y)
            },
            Operation::Prod(v) => factors_of_product(v),
            Operation::Add(a, b) => {
                let x = factors_of_sym(a);
                let y = factors_of_sym(b);
                x.union(&y)
            },
            Operation::Sub(a, b) => {
                let x = factors_of_sym(a);
                let y = factors_of_sym(b);
                x.union(&y)
            },
            Operation::Sum(v) => factors_of_sum(v),
            Operation::Div(a, b) => {
                let x = factors_of_sym(a);
                let y = factors_of_sym(b);
                x.subtract(&y)
            },
            Operation::Rem(_, _) => CommonTerms::new(),
            Operation::Nop(_) => CommonTerms::new(),
            _ => {
                let mut r = CommonTerms::new();
                r.insert(s.duplicate());
                r
            },
        },
        _ => {
            let mut r = CommonTerms::new();
            r.insert(s.duplicate());
            r
        },
    }
}

fn factors_of_product(v: &Vec<Sym>) -> (r: CommonTerms)
    ensures
        r.wf(),
        r@ == factors_of_all(terms_of(v@), v@.len()),
    decreases v, 1nat,
{
    let mut acc = CommonTerms::new();
    let mut i: usize = 0;
    while i < v.len()
        invariant
            i <= v.len(),
            acc.wf(),
            acc@ == factors_of_all(terms_of(v@), i as nat),
        decreases v.len() - i,
    {
        let here = factors_of_sym(&v[i]);
        acc = acc.combine(&here);
        i += 1;
    }
    acc
}

fn factors_of_sum(v: &Vec<Sym>) -> (r: CommonTerms)
    ensures
        r.wf(),
        r@ == factors_of_each(terms_of(v@), v@.len()),
    decreases v, 1nat,
{
    if v.len() == 0 {
        return CommonTerms::new();
    }
    let mut acc = factors_of_sym(&v[0]);
    let mut i: usize = 1;
    while i < v.len()
        invariant
            1 <= i <= v.len(),
            acc.wf(),
            acc@ == factors_of_each(terms_of(v@), i as nat),
        decreases v.len() - i,
    {
        let here = factors_of_sym(&v[i]);
        acc = acc.union(&here);
        i += 1;
    }
    acc
}

fn without_sym(s: &Sym, set: &CommonTerms) -> (r: Sym)
    requires
        set.wf(),
    ensures
        r@ == without(s@, set@),
    decreases s, 0nat,
{
    if set.is_empty() {
        return s.duplicate();
    }
    match s {
        Sym::Operation(o) => match &**o {
            Operation::Mul(a, b) => {
                let first = set.union(&factors_of_sym(a));
                let rest = set.subtract(&first);
                let x = without_sym(a, &first);
                let y = without_sym(b, &rest);
                Sym::Operation(Box::new(Operation::Mul(x, y)))
            },
            Operation::Prod(v) => Sym::Operation(Box::new(Operation::Prod(without_product(v, set)))),
            Operation::Add(a, b) => {
                let x = without_sym(a, set);
                let y = without_sym(b, set);
                Sym::Operation(Box::new(Operation::Add(x, y)))
            },
            Operation::Sub(a, b) => {
                let x = without_sym(a, set);
                let y = without_sym(b, set);
                Sym::Operation(Box::new(Operation::Sub(x, y)))
            },
            Operation::Sum(v) => Sym::Operation(Box::new(Operation::Sum(without_sum(v, set)))),
            Operation::Div(a, b) => {
                let x = without_sym(a, set);
                Sym::Operation(Box::new(Operation::Div(x, b.duplicate())))
            },
            Operation::Rem(_, _) => s.duplicate(),
            Operation::Nop(_) => s.duplicate(),
            _ => {
                if set.contains(s) {
                    Sym::Number(ONE)
                } else {
                    s.duplicate()
                }
            },
        },
        _ => {
            if set.contains(s) {
                Sym::Number(ONE)
            } else {
                s.duplicate()
            }
        },
    }
}

fn without_product(v: &Vec<Sym>, set: &CommonTerms) -> (r: Vec<Sym>)
    requires
        set.wf(),
    ensures
        terms_of(r@) == without_in_turn(terms_of(v@), set@, v@.len()).0,
    decreases v, 1nat,
{
    let mut out: Vec<Sym> = Vec::new();
    let mut left = set.duplicate();
    let mut i: usize = 0;
    proof {
        assert(terms_of(out@) =~= Seq::<Term>::empty());
    }
    while i < v.len()
        invariant
            i <= v.len(),
            left.wf(),
            set.wf(),
            (terms_of(out@), left@) == without_in_turn(terms_of(v@), set@, i as nat),
        decreases v.len() - i,
    {
        let ghost before = terms_of(out@);
        let here = left.union(&factors_of_sym(&v[i]));
        out.push(without_sym(&v[i], &here));
        proof {
            assert(terms_of(out@) =~= before.push(without(v@[i as int]@, here@)));
        }
        left = left.subtract(&here);
        i += 1;
    }
    out
}

fn without_sum(v: &Vec<Sym>, set: &CommonTerms) -> (r: Vec<Sym>)
    requires
        set.wf(),
    ensures
        terms_of(r@) == without_in_each(terms_of(v@), set@, v@.len()),
    decreases v, 1nat,
{
    let mut out: Vec<Sym> = Vec::new();
    let mut i: usize = 0;
    proof {
        assert(terms_of(out@) =~= Seq::<Term>::empty());
    }
    while i < v.len()
        invariant
            i <= v.len(),
            set.wf(),
            terms_of(out@) == without_in_each(terms_of(v@), set@, i as nat),
        decreases v.len() - i,
    {
        let ghost before = terms_of(out@);
        out.push(without_sym(&v[i], set));
        i += 1;
        proof {
            assert(terms_of(out@) =~= before.push(without(v@[i - 1]@, set@)));
        }
    }
    out
}

/// An expression as a compound expression: a literal, a symbol or a
/// constant is marked as reduced, which changes neither its value nor its
/// text.
pub open spec fn as_operation(t: Term) -> Term {
    match t {
        Term::Number(_) => Term::Nop(Box::new(t)),
        Term::Identifier(_) => Term::Nop(Box::new(t)),
        Term::Constant(_) => Term::Nop(Box::new(t)),
        _ => t,
    }
}

/// What the addition theorems make of a compound expression.
pub open spec fn trig_rewrite(t: Term) -> Option<Term> {
    match t {
        Term::Add(a, b) => trig_identity(*a, *b, false),
        Term::Sub(a, b) => trig_identity(*a, *b, true),
        _ => None,
    }
}

fn into_operation(s: Sym) -> (r: Operation)
    ensures
        r@ == as_operation(s@),
{
    match s {
        Sym::Operation(o) => *o,
        other => Operation::Nop(other),
    }
}

fn pair(s: &Sym) -> (r: Option<(Sym, Sym)>)
    ensures
        match r {
            Some((x, y)) => pair_of(s@) == Some((x@, y@)),
            None => pair_of(s@) is None,
        },
{
    match s {
        Sym::Operation(o) => match &**o {
            Operation::Mul(a, b) => {
                let x = a.duplicate();
                let y = b.duplicate();
                assert(pair_of(s@) == Some((x@, y@)));
                Some((x, y))
            },
            Operation::Prod(v) => {
                if v.len() == 2 {
                    let x = v[0].duplicate();
                    let y = v[1].duplicate();
                    proof {
                        assert(terms_of(v@).len() == 2);
                        assert(terms_of(v@)[0] == v@[0]@);
                        assert(terms_of(v@)[1] == v@[1]@);
                        assert(pair_of(s@) == Some((x@, y@)));
                    }
                    Some((x, y))
                } else {
                    assert(terms_of(v@).len() != 2);
                    None
                }
            },
            _ => None,
        },
        _ => None,
    }
}

fn sine_angle(s: &Sym) -> (r: Option<Sym>)
    ensures
        match r {
            Some(x) => s@ == Term::Sin(Box::new(x@)),
            None => !(s@ is Sin),
        },
{
    match s {
        Sym::Operation(o) => match &**o {
            Operation::Sin(x) => Some(x.duplicate()),
            _ => None,
        },
        _ => None,
    }
}

fn cosine_angle(s: &Sym) -> (r: Option<Sym>)
    ensures
        match r {
            Some(x) => s@ == Term::Cos(Box::new(x@)),
            None => !(s@ is Cos),
        },
{
    match s {
        Sym::Operation(o) => match &**o {
            Operation::Cos(x) => Some(x.duplicate()),
            _ => None,
        },
        _ => None,
    }
}

fn sine_cosine_angles(a: &Sym, b: &Sym) -> (r: Option<(Sym, Sym)>)
    ensures
        match r {
            Some((x, y)) => sine_cosine((a@, b@)) == Some((x@, y@)),
            None => sine_cosine((a@, b@)) is None,
        },
{
    match (sine_angle(a), cosine_angle(b)) {
        (Some(x), Some(y)) => Some((x, y)),
        _ => match (cosine_angle(a), sine_angle(b)) {
            (Some(y), Some(x)) => Some((x, y)),
            _ => None,
        },
    }
}

fn two_cosine_angles(a: &Sym, b: &Sym) -> (r: Option<(Sym, Sym)>)
    ensures
        match r {
            Some((x, y)) => two_cosines((a@, b@)) == Some((x@, y@)),
            None => two_cosines((a@, b@)) is None,
        },
{
    match (cosine_angle(a), cosine_angle(b)) {
        (Some(x), Some(y)) => Some((x, y)),
        _ => None,
    }
}

fn two_sine_angles(a: &Sym, b: &Sym) -> (r: Option<(Sym, Sym)>)
    ensures
        match r {
            Some((x, y)) => two_sines((a@, b@)) == Some((x@, y@)),
            None => two_sines((a@, b@)) is None,
        },
{
    match (sine_angle(a), sine_angle(b)) {
        (Some(x), Some(y)) => Some((x, y)),
        _ => None,
    }
}

fn angle_of(x: Sym, y: Sym, plus: bool) -> (r: Sym)
    ensures
        r@ == angle(x@, y@, plus),
{
    if plus {
        Sym::Operation(Box::new(Operation::Add(x, y)))
    } else {
        Sym::Operation(Box::new(Operation::Sub(x, y)))
    }
}

fn sine_theorem_of(p: &(Sym, Sym), q: &(Sym, Sym), minus: bool) -> (r: Option<Sym>)
    ensures
        match r {
            Some(x) => sine_theorem((p.0@, p.1@), (q.0@, q.1@), minus) == Some(x@),
            None => sine_theorem((p.0@, p.1@), (q.0@, q.1@), minus) is None,
        },
{
    match (sine_cosine_angles(&p.0, &p.1), sine_cosine_angles(&q.0, &q.1)) {
        (Some((x, y)), Some((u, w))) => {
            if x.eq_internal(&w) && y.eq_internal(&u) {
                Some(Sym::Operation(Box::new(Operation::Sin(angle_of(x, y, !minus)))))
            } else {
                None
            }
        },
        _ => None,
    }
}

fn cosine_theorem_of(p: &(Sym, Sym), q: &(Sym, Sym), minus: bool) -> (r: Option<Sym>)
    ensures
        match r {
            Some(x) => cosine_theorem((p.0@, p.1@), (q.0@, q.1@), minus) == Some(x@),
            None => cosine_theorem((p.0@, p.1@), (q.0@, q.1@), minus) is None,
        },
{
    match (two_cosine_angles(&p.0, &p.1), two_sine_angles(&q.0, &q.1)) {
        (Some((x, y)), Some((u, w))) => {
            if (x.eq_internal(&u) && y.eq_internal(&w)) || (x.eq_internal(&w) && y.eq_internal(
                &u,
            )) {
                Some(Sym::Operation(Box::new(Operation::Cos(angle_of(x, y, minus)))))
            } else {
                None
            }
        },
        _ => None,
    }
}

fn trig(a: &Sym, b: &Sym, minus: bool) -> (r: Option<Sym>)
    ensures
        match r {
            Some(x) => trig_identity(a@, b@, minus) == Some(x@),
            None => trig_identity(a@, b@, minus) is None,
        },
{
    match (pair(a), pair(b)) {
        (Some(p), Some(q)) => {
            match sine_theorem_of(&p, &q, minus) {
                Some(x) => Some(x),
                None => match cosine_theorem_of(&p, &q, minus) {
                    Some(x) => Some(x),
                    None => {
                        if !minus {
                            cosine_theorem_of(&q, &p, false)
                        } else {
                            None
                        }
                    },
                },
            }
        },
        _ => None,
    }
}

/// Rewrites a sum or a difference of two products of sines and cosines by
/// the addition theorems. Says whether one of them had this form; if not,
/// the expression stays as it is. What it leaves is the sine or the cosine
/// of the addition or the subtraction of the two angles.
pub fn opt_trig(op: &mut Operation) -> (r: bool)
    ensures
        r == (trig_rewrite(old(op)@) is Some),
        r ==> old(op)@ is Add || old(op)@ is Sub,
        final(op)@ == (if r {
            trig_rewrite(old(op)@)->0
        } else {
            old(op)@
        }),
{
    let found = match &*op {
        Operation::Add(a, b) => trig(a, b, false),
        Operation::Sub(a, b) => trig(a, b, true),
        _ => None,
    };
    match found {
        Some(x) => {
            *op = into_operation(x);
            true
        },
        None => false,
    }
}

fn clear_sym(s: &Sym) -> (r: Sym)
    ensures
        r@ == cleared(s@),
    decreases s, 0nat,
{
    match s {
        Sym::Operation(o) => match &**o {
            Operation::Mul(a, b) => {
                let x = clear_sym(a);
                let y = clear_sym(b);
                apply_mul(x, y)
            },
            Operation::Prod(v) => apply_prod(clear_each(v)),
            Operation::Add(a, b) => {
                let x = clear_sym(a);
                let y = clear_sym(b);
                x.add(y)
            },
            Operation::Sub(a, b) => {
                let x = clear_sym(a);
                let y = clear_sym(b);
                x.sub(y)
            },
            Operation::Sum(v) => Sym::Operation(Box::new(Operation::Sum(clear_each(v)))),
            Operation::Div(a, b) => {
                let x = clear_sym(a);
                x.div(b.duplicate())
            },
            _ => s.duplicate(),
        },
        _ => s.duplicate(),
    }
}

fn clear_each(v: &Vec<Sym>) -> (r: Vec<Sym>)
    ensures
        terms_of(r@) == cleared_each(terms_of(v@), v@.len()),
    decreases v, 1nat,
{
    let mut out: Vec<Sym> = Vec::new();
    let mut i: usize = 0;
    proof {
        assert(terms_of(out@) =~= Seq::<Term>::empty());
    }
    while i < v.len()
        invariant
            i <= v.len(),
            terms_of(out@) == cleared_each(terms_of(v@), i as nat),
        decreases v.len() - i,
    {
        let ghost before = terms_of(out@);
        out.push(clear_sym(&v[i]));
        i += 1;
        proof {
            assert(terms_of(out@) =~= before.push(cleared(v@[i - 1]@)));
        }
    }
    out
}

fn extract(o: Operation) -> (r: Sym)
    ensures
        r@ == extracted(o@),
{
    let mut op = o;
    merge_operation(&mut op);
    let flat = Sym::Operation(Box::new(op));
    assert(flat@ == merged(o@));
    let c = factors_of_sym(&flat);
    assert(c@ == factors(flat@));
    if c.is_empty() {
        flat
    } else {
        let rest = clear_sym(&without_sym(&flat, &c));
        assert(rest@ == cleared(without(flat@, c@)));
        let front = Sym::Operation(Box::new(Operation::Prod(c.members())));
        assert(front@ == Term::Prod(c@));
        let whole = Sym::Operation(Box::new(Operation::Mul(front, rest)));
        merge(whole)
    }
}

fn apply_add(a: Sym, b: Sym) -> (r: Sym)
    ensures
        r@ == add_rule(a@, b@),
{
    match trig(&a, &b, false) {
        Some(x) => {
            return x;
        },
        None => {},
    }
    if is_zero_sym(&a) {
        return b;
    }
    if is_zero_sym(&b) {
        return a;
    }
    match is_unsub(&b) {
        Some(x) => {
            return a.sub(x);
        },
        None => {},
    }
    match is_unsub(&a) {
        Some(x) => {
            return b.sub(x);
        },
        None => {},
    }
    if a.sum_folds(&b) {
        a.add(b)
    } else {
        extract(Operation::Add(a, b))
    }
}

fn apply_sub(a: Sym, b: Sym) -> (r: Sym)
    ensures
        r@ == sub_rule(a@, b@),
{
    match trig(&a, &b, true) {
        Some(x) => {
            return x;
        },
        None => {},
    }
    if is_zero_sym(&b) {
        return a;
    }
    if is_zero_sym(&a) {
        return b.sing_inversion();
    }
    match is_unsub(&b) {
        Some(x) => {
            return a.add(x);
        },
        None => {},
    }
    match is_unsub(&a) {
        Some(x) => {
            return x.add(b).sing_inversion();
        },
        None => {},
    }
    if a.difference_folds(&b) {
        a.sub(b)
    } else {
        extract(Operation::Sub(a, b))
    }
}

fn apply_mul(a: Sym, b: Sym) -> (r: Sym)
    ensures
        r@ == mul_rule(a@, b@),
{
    if is_zero_sym(&a) || is_zero_sym(&b) {
        return Sym::Number(POS_ZERO);
    }
    match a.mul(b) {
        Sym::Operation(o) => match *o {
            Operation::Mul(x, y) => merge(Sym::Operation(Box::new(Operation::Mul(x, y)))),
            Operation::UnSub(inner) => {
                let is_mul = match &inner {
                    Sym::Operation(i) => match &**i {
                        Operation::Mul(_, _) => true,
                        _ => false,
                    },
                    _ => false,
                };
                if is_mul {
                    Sym::Operation(Box::new(Operation::UnSub(merge(inner))))
                } else {
                    Sym::Operation(Box::new(Operation::UnSub(inner)))
                }
            },
            other => Sym::Operation(Box::new(other)),
        },
        leaf => leaf,
    }
}

fn apply_div(a: Sym, b: Sym) -> (r: Sym)
    ensures
        r@ == div_rule(a@, b@),
{
    if is_zero_sym(&a) {
        return Sym::Number(POS_ZERO);
    }
    if a.eq_internal(&b) {
        return Sym::Number(ONE);
    }
    match a.div(b) {
        Sym::Operation(o) => match *o {
            Operation::Div(n, d) => {
                let c = factors_of_sym(&n).union(&factors_of_sym(&d));
                if c.is_empty() {
                    Sym::Operation(Box::new(Operation::Div(n, d)))
                } else {
                    without_sym(&n, &c).div(without_sym(&d, &c))
                }
            },
            other => Sym::Operation(Box::new(other)),
        },
        leaf => leaf,
    }
}

fn sum_terms(list: Vec<Sym>) -> (r: Sym)
    ensures
        r@ == sum_of_terms(terms_of(list@)),
{
    if list.len() == 0 {
        Sym::Number(POS_ZERO)
    } else if list.len() == 1 {
        list[0].duplicate()
    } else {
        extract(Operation::Sum(list))
    }
}

fn apply_sum(v: Vec<Sym>) -> (r: Sym)
    ensures
        r@ == sum_rule(terms_of(v@)),
{
    let mut keep: Vec<Sym> = Vec::new();
    let mut literal: u32 = POS_ZERO;
    let mut i: usize = 0;
    proof {
        assert(terms_of(keep@) =~= Seq::<Term>::empty());
    }
    while i < v.len()
        invariant
            i <= v.len(),
            terms_of(keep@) == plain_terms(terms_of(v@), i as nat),
            literal == literal_term(terms_of(v@), i as nat),
        decreases v.len() - i,
    {
        let ghost before = terms_of(keep@);
        match &v[i] {
            Sym::Number(b) => {
                literal = literal_sum(literal, *b);
            },
            other => {
                if !is_zero_sym(other) {
                    keep.push(other.duplicate());
                    proof {
                        assert(terms_of(keep@) =~= before.push(v@[i as int]@));
                    }
                }
            },
        }
        i += 1;
    }
    if !is_zero_literal(literal) {
        let ghost before = terms_of(keep@);
        keep.push(Sym::Number(literal));
        proof {
            assert(terms_of(keep@) =~= before.push(Term::Number(literal)));
        }
    }
    sum_terms(keep)
}

fn apply_prod(v: Vec<Sym>) -> (r: Sym)
    ensures
        r@ == prod_rule(terms_of(v@)),
{
    if some_zero(&v) {
        return Sym::Number(POS_ZERO);
    }
    let mut keep: Vec<Sym> = Vec::new();
    let mut odd = false;
    let mut i: usize = 0;
    proof {
        assert(terms_of(keep@) =~= Seq::<Term>::empty());
    }
    while i < v.len()
        invariant
            i <= v.len(),
            terms_of(keep@) == kept_factors(terms_of(v@), i as nat),
            odd == odd_signs(terms_of(v@), i as nat),
        decreases v.len() - i,
    {
        let ghost before = terms_of(keep@);
        let minus_one = match &v[i] {
            Sym::Number(b) => *b == NEG_ONE,
            _ => false,
        };
        let stripped = match is_unsub(&v[i]) {
            Some(inner) => {
                odd = !odd;
                inner
            },
            None => {
                if minus_one {
                    odd = !odd;
                }
                v[i].duplicate()
            },
        };
        if !stripped.is_one() && !minus_one {
            keep.push(stripped);
            proof {
                assert(terms_of(keep@) =~= before.push(bare(v@[i as int]@)));
            }
        }
        i += 1;
    }
    let body = merge(Sym::Operation(Box::new(Operation::Prod(keep))));
    if odd {
        Sym::Operation(Box::new(Operation::UnSub(body)))
    } else {
        body
    }
}

fn reduce_sym(s: &Sym) -> (r: Sym)
    ensures
        r@ == reduced(s@),
    decreases s, 0nat,
{
    match s {
        Sym::Operation(o) => reduce_operation(o),
        _ => s.duplicate(),
    }
}

fn reduce_each(v: &Vec<Sym>) -> (r: Vec<Sym>)
    ensures
        terms_of(r@) == reduced_each(terms_of(v@), v@.len()),
    decreases v, 1nat,
{
    let mut out: Vec<Sym> = Vec::new();
    let mut i: usize = 0;
    proof {
        assert(terms_of(out@) =~= Seq::<Term>::empty());
    }
    while i < v.len()
        invariant
            i <= v.len(),
            terms_of(out@) == reduced_each(terms_of(v@), i as nat),
        decreases v.len() - i,
    {
        let ghost before = terms_of(out@);
        out.push(reduce_sym(&v[i]));
        i += 1;
        proof {
            assert(terms_of(out@) =~= before.push(reduced(v@[i - 1]@)));
        }
    }
    out
}

fn reduce_operation(o: &Operation) -> (r: Sym)
    ensures
        r@ == reduced(o@),
    decreases o, 0nat,
{
    match o {
        Operation::Sqrt(s) => Sym::sqrt(reduce_sym(s)),
        Operation::Sin(s) => reduce_sym(s).sine(),
        Operation::Cos(s) => reduce_sym(s).cosine(),
        Operation::UnSub(s) => reduce_sym(s).sing_inversion(),
        Operation::Add(a, b) => {
            let x = reduce_sym(a);
            let y = reduce_sym(b);
            apply_add(x, y)
        },
        Operation::Sub(a, b) => {
            let x = reduce_sym(a);
            let y = reduce_sym(b);
            apply_sub(x, y)
        },
        Operation::Mul(a, b) => {
            let x = reduce_sym(a);
            let y = reduce_sym(b);
            apply_mul(x, y)
        },
        Operation::Div(a, b) => {
            let x = reduce_sym(a);
            let y = reduce_sym(b);
            apply_div(x, y)
        },
        Operation::Sum(v) => apply_sum(reduce_each(v)),
        Operation::Prod(v) => apply_prod(reduce_each(v)),
        Operation::Rem(_, _) => Sym::Operation(Box::new(o.duplicate())),
        Operation::Nop(_) => Sym::Operation(Box::new(o.duplicate())),
    }
}

fn settle(s: Sym, limit: usize) -> (r: (Sym, bool))
    ensures
        r.0@ == settled(s@, limit as nat),
        r.1 == rests(s@, limit as nat),
{
    let mut current = s;
    let mut passes: usize = 0;
    loop
        invariant
            passes <= limit,
            settled(current@, (limit - passes) as nat) == settled(s@, limit as nat),
            rests(current@, (limit - passes) as nat) == rests(s@, limit as nat),
        decreases limit - passes,
    {
        let next = reduce_sym(&current);
        if next.eq_internal(&current) {
            return (current, true);
        }
        if passes == limit {
            return (Sym::Operation(Box::new(Operation::Nop(next))), false);
        }
        current = next;
        passes += 1;
    }
}

impl Sym {
    /// The simplified form of this expression, after `limit + 1` passes at
    /// most; and whether the passes came to rest. Where they did not, what
    /// the last pass gave is returned, marked as reduced.
    pub fn opt_within(self, limit: usize) -> (r: (Sym, bool))
        requires
            !has_remainder(self@),
        ensures
            r.0@ == settled(self@, limit as nat),
            r.1 == rests(self@, limit as nat),
            !has_remainder(r.0@),
    {
        proof {
            crate::clean::lemma_clean_settled(self@, limit as nat);
        }
        settle(self, limit)
    }
}

fn holds_remainder_in(v: &Vec<Sym>) -> (r: bool)
    ensures
        r == any_has_remainder(terms_of(v@), v@.len()),
    decreases v, 1nat,
{
    let mut i: usize = 0;
    while i < v.len()
        invariant
            i <= v.len(),
            !any_has_remainder(terms_of(v@), i as nat),
        decreases v.len() - i,
    {
        if v[i].holds_remainder() {
            proof {
                lemma_remainder_found(terms_of(v@), i as int, v@.len());
            }
            return true;
        }
        i += 1;
    }
    false
}

proof fn lemma_remainder_found(v: Seq<Term>, i: int, n: nat)
    requires
        0 <= i < n <= v.len(),
        has_remainder(v[i]),
    ensures
        any_has_remainder(v, n),
    decreases n,
{
    if n - 1 > i {
        lemma_remainder_found(v, i, (n - 1) as nat);
    }
}

impl Sym {
    /// Whether this expression holds a remainder.
    pub fn holds_remainder(&self) -> (r: bool)
        ensures
            r == has_remainder(self@),
        decreases self, 0nat,
    {
        match self {
            Sym::Operation(o) => o.holds_remainder(),
            _ => false,
        }
    }
}

impl Operation {
    /// Whether this expression holds a remainder.
    pub fn holds_remainder(&self) -> (r: bool)
        ensures
            r == has_remainder(self@),
        decreases self, 0nat,
    {
        match self {
            Operation::Rem(_, _) => true,
            Operation::Sqrt(s) => s.holds_remainder(),
            Operation::Sin(s) => s.holds_remainder(),
            Operation::Cos(s) => s.holds_remainder(),
            Operation::UnSub(s) => s.holds_remainder(),
            Operation::Nop(s) => s.holds_remainder(),
            Operation::Add(a, b) => a.holds_remainder() || b.holds_remainder(),
            Operation::Sub(a, b) => a.holds_remainder() || b.holds_remainder(),
            Operation::Mul(a, b) => a.holds_remainder() || b.holds_remainder(),
            Operation::Div(a, b) => a.holds_remainder() || b.holds_remainder(),
            Operation::Sum(v) => holds_remainder_in(v),
            Operation::Prod(v) => holds_remainder_in(v),
        }
    }
}

/// The steps of the simplifier on one value.
pub trait OptInner: Sized {
    /// Whether the simplifier takes this value: it holds no remainder.
    spec fn supported(self) -> bool;

    /// Whether one pass turns this value into `r`.
    spec fn passes_to(self, r: Self) -> bool;

    /// The atomic factors of this value.
    spec fn common(self) -> Seq<Term>;

    /// Whether this value without the factors `c` is `r`.
    spec fn loses(self, c: Seq<Term>, r: Self) -> bool;

    /// Makes one pass over this value. What it leaves can take another.
    fn opt_inner(&mut self)
        requires
            (*old(self)).supported(),
        ensures
            (*old(self)).passes_to(*final(self)),
            (*final(self)).supported(),
    ;

    /// The atomic factors of this value, which holds no remainder.
    fn longest_common(&self) -> (r: CommonTerms)
        requires
            (*self).supported(),
        ensures
            r.wf(),
            r@ == (*self).common(),
    ;

    /// Takes each factor in `set` out of this value once.
    fn replace_common(&mut self, set: &CommonTerms)
        requires
            set.wf(),
        ensures
            (*old(self)).loses(set@, *final(self)),
    ;
}

/// Simplification to a fixed point.
pub trait Opt: Sized {
    /// Whether the simplifier takes this value: it holds no remainder.
    spec fn accepted(self) -> bool;

    /// Whether `r` is the simplified form of this value.
    spec fn simplifies_to(self, r: Self) -> bool;

    /// The simplified form of this value: passes are made until one changes
    /// nothing. What is returned is a fixed point of the pass, and can be
    /// simplified again, which changes nothing.
    fn opt(self) -> (r: Self)
        requires
            self.accepted(),
        ensures
            self.simplifies_to(r),
            r.accepted(),
    ;
}

impl OptInner for Sym {
    open spec fn supported(self) -> bool {
        !has_remainder(self@)
    }

    open spec fn passes_to(self, r: Self) -> bool {
        r@ == reduced(self@)
    }

    open spec fn common(self) -> Seq<Term> {
        factors(self@)
    }

    open spec fn loses(self, c: Seq<Term>, r: Self) -> bool {
        r@ == without(self@, c)
    }

    fn opt_inner(&mut self) {
        proof {
            crate::clean::lemma_clean_reduced(self@);
        }
        let r = reduce_sym(self);
        *self = r;
    }

    fn longest_common(&self) -> (r: CommonTerms) {
        factors_of_sym(self)
    }

    fn replace_common(&mut self, set: &CommonTerms) {
        let r = without_sym(self, set);
        *self = r;
    }
}

impl OptInner for Operation {
    open spec fn supported(self) -> bool {
        !has_remainder(self@)
    }

    open spec fn passes_to(self, r: Self) -> bool {
        r@ == as_operation(reduced(self@))
    }

    open spec fn common(self) -> Seq<Term> {
        factors(self@)
    }

    open spec fn loses(self, c: Seq<Term>, r: Self) -> bool {
        r@ == as_operation(without(self@, c))
    }

    fn opt_inner(&mut self) {
        proof {
            crate::clean::lemma_clean_reduced(self@);
        }
        let r = reduce_operation(self);
        *self = into_operation(r);
    }

    fn longest_common(&self) -> (r: CommonTerms) {
        let whole = Sym::Operation(Box::new(self.duplicate()));
        factors_of_sym(&whole)
    }

    fn replace_common(&mut self, set: &CommonTerms) {
        let whole = Sym::Operation(Box::new(self.duplicate()));
        let r = without_sym(&whole, set);
        *self = into_operation(r);
    }
}

impl Opt for Sym {
    open spec fn accepted(self) -> bool {
        !has_remainder(self@)
    }

    open spec fn simplifies_to(self, r: Self) -> bool {
        r@ == simplified(self@)
    }

    fn opt(self) -> (r: Self) {
        proof {
            crate::clean::lemma_clean_simplified(self@);
        }
        settle(self, PASS_LIMIT).0
    }
}

impl Opt for Operation {
    open spec fn accepted(self) -> bool {
        !has_remainder(self@)
    }

    open spec fn simplifies_to(self, r: Self) -> bool {
        r@ == as_operation(simplified(self@))
    }

    fn opt(self) -> (r: Self) {
        proof {
            crate::clean::lemma_clean_simplified(self@);
        }
        into_operation(settle(Sym::Operation(Box::new(self)), PASS_LIMIT).0)
    }
}

} // verus!
