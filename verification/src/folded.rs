//! What every built and every simplified expression keeps.
//!
//! - No operand of an addition, a subtraction or a multiplication is a
//!   literal zero, nor is the dividend of a division: it would have been
//!   left out, or have made the whole zero.
//! - A multiplication or a division has two literals as its operands only
//!   where one stands in the place of a factor that was taken out.
//! - A negation never negates a literal or another negation.
//! - No operand of a multiplication carries a sign: a product has its sign
//!   in front.
//! - The divisor of a division is no literal below zero.
//! - The angle of a sine or a cosine is no literal zero.
//!
//! What is marked as reduced, and a remainder, is not looked into.
use crate::arith::{
    cosine_of, difference_folds, difference_of, is_negative, is_negative_number, is_one,
    is_zero_number, negated, product_of, quotient_of, sine_of, sum_folds, sum_of, unsigned,
};
use crate::canon::{
    add_terms, add_terms_of, is_multiplicative, joins_product, joins_sum, merged, mul_terms,
    mul_terms_of,
};
use crate::opt::{
    add_rule, angle, bare, cleared, cleared_each, cosine_theorem, div_rule, extracted, factors,
    factors_of_all,
    factors_of_each, kept_factors, literal_term, mul_rule, pair_of, plain_terms, prod_rule,
    reduced, reduced_each, settled, simplified, sine_cosine, sine_theorem, sub_rule,
    sum_of_terms, sum_rule, trig_identity, two_cosines, without, without_in_each,
    without_in_turn, PASS_LIMIT,
};
use crate::marks::{any_has_mark, has_mark};
use crate::opt::{any_has_remainder, has_remainder};
use crate::order::{lemma_sorted, sorted};
use crate::arith::SignInversion;
use crate::syms::{terms_of, Operation, Sym, Term};
use crate::terms::{combined, picked, put, remaining, shared};
use vstd::prelude::*;

verus! {

/// Two literals of which neither is the literal one.
pub open spec fn unfolded_pair(a: Term, b: Term) -> bool {
    a is Number && b is Number && !is_one(a) && !is_one(b)
}

/// What holds of one node by itself.
pub open spec fn well_built(t: Term) -> bool {
    match t {
        Term::Add(a, b) => !is_zero_number(*a) && !is_zero_number(*b),
        Term::Sub(a, b) => !is_zero_number(*a) && !is_zero_number(*b),
        Term::Mul(a, b) => {
            &&& !is_zero_number(*a)
            &&& !is_zero_number(*b)
            &&& !unfolded_pair(*a, *b)
            &&& !is_negative(*a)
            &&& !is_negative(*b)
        },
        Term::Div(a, b) => {
            &&& !is_zero_number(*a)
            &&& !(*a is Number && *b is Number && !is_one(*a))
            &&& !is_negative_number(*b)
        },
        Term::UnSub(s) => !(*s is Number) && !(*s is UnSub),
        Term::Sin(s) => !is_zero_number(*s),
        Term::Cos(s) => !is_zero_number(*s),
        _ => true,
    }
}

/// Every node of the expression is well built.
pub open spec fn folded(t: Term) -> bool
    decreases t, 0nat,
{
    well_built(t) && match t {
        Term::Sqrt(s) => folded(*s),
        Term::Sin(s) => folded(*s),
        Term::Cos(s) => folded(*s),
        Term::UnSub(s) => folded(*s),
        Term::Add(a, b) => folded(*a) && folded(*b),
        Term::Sub(a, b) => folded(*a) && folded(*b),
        Term::Mul(a, b) => folded(*a) && folded(*b),
        Term::Div(a, b) => folded(*a) && folded(*b),
        Term::Sum(v) => folded_upto(v, v.len()),
        Term::Prod(v) => folded_upto(v, v.len()),
        _ => true,
    }
}

/// Each of the first `n` members is folded.
pub open spec fn folded_upto(v: Seq<Term>, n: nat) -> bool
    decreases v, n,
{
    if n == 0 || n > v.len() {
        true
    } else {
        folded_upto(v, (n - 1) as nat) && folded(v[n - 1])
    }
}

/// Every member is folded.
pub open spec fn all_folded(s: Seq<Term>) -> bool {
    forall|i: int| 0 <= i < s.len() ==> folded(#[trigger] s[i])
}

proof fn lemma_folded_upto(v: Seq<Term>, n: nat)
    requires
        n <= v.len(),
    ensures
        folded_upto(v, n) <==> forall|i: int| 0 <= i < n ==> folded(#[trigger] v[i]),
    decreases n,
{
    if n > 0 {
        lemma_folded_upto(v, (n - 1) as nat);
        if !folded_upto(v, n) {
            if folded(v[n - 1]) {
                let i = choose|i: int| 0 <= i < n - 1 && !folded(#[trigger] v[i]);
                assert(0 <= i < n && !folded(v[i]));
            } else {
                assert(0 <= n - 1 < n && !folded(v[n - 1]));
            }
        }
    }
}

/// A collection is folded exactly if its members are.
pub proof fn lemma_folded_collection(v: Seq<Term>)
    ensures
        folded(Term::Sum(v)) <==> all_folded(v),
        folded(Term::Prod(v)) <==> all_folded(v),
{
    lemma_folded_upto(v, v.len());
}

proof fn lemma_folded_joined(x: Seq<Term>, y: Seq<Term>)
    requires
        all_folded(x),
        all_folded(y),
    ensures
        all_folded(x + y),
{
    assert forall|i: int| 0 <= i < (x + y).len() implies folded(#[trigger] (x + y)[i]) by {
        if i < x.len() {
            assert((x + y)[i] == x[i]);
        } else {
            assert((x + y)[i] == y[i - x.len()]);
        }
    }
}

proof fn lemma_folded_pushed(x: Seq<Term>, t: Term)
    requires
        all_folded(x),
        folded(t),
    ensures
        all_folded(x.push(t)),
{
    assert forall|i: int| 0 <= i < x.push(t).len() implies folded(#[trigger] x.push(t)[i]) by {
        if i < x.len() {
            assert(x.push(t)[i] == x[i]);
        }
    }
}

proof fn lemma_folded_sorted(s: Seq<Term>)
    requires
        all_folded(s),
    ensures
        all_folded(sorted(s)),
{
    lemma_sorted(s);
    assert forall|i: int| 0 <= i < sorted(s).len() implies folded(#[trigger] sorted(s)[i]) by {
        let x = sorted(s)[i];
        assert(sorted(s).contains(x));
        assert(s.contains(x));
        let j = choose|j: int| 0 <= j < s.len() && s[j] == x;
        assert(folded(s[j]));
    }
}

/// A folded expression without its sign carries none.
pub proof fn lemma_unsigned(a: Term)
    requires
        folded(a),
    ensures
        folded(unsigned(a)),
        folded(negated(a)),
        !is_negative(unsigned(a)),
        unsigned(a) is Number <==> a is Number,
        is_zero_number(unsigned(a)) ==> is_zero_number(a),
        is_zero_number(negated(a)) ==> is_zero_number(a),
        negated(a) is Number <==> a is Number,
{
}

/// What the operators build of folded operands is folded.
pub proof fn lemma_folded_operators(a: Term, b: Term)
    requires
        folded(a),
        folded(b),
    ensures
        folded(negated(a)),
        folded(unsigned(a)),
        folded(sine_of(a)),
        folded(cosine_of(a)),
        folded(product_of(a, b)),
        folded(sum_of(a, b)),
        folded(difference_of(a, b)),
        folded(quotient_of(a, b)),
{
    lemma_unsigned(a);
    lemma_unsigned(b);
    lemma_folded_product(a, b);
    lemma_folded_product(Term::Number(crate::literal::TWO), a);
}

proof fn lemma_folded_product(a: Term, b: Term)
    requires
        folded(a),
        folded(b),
    ensures
        folded(product_of(a, b)),
{
    lemma_unsigned(a);
    lemma_unsigned(b);
    let x = unsigned(a);
    let y = unsigned(b);
    let core = crate::arith::unsigned_product(x, y);
    if !(a is Number && b is Number) && !is_zero_number(a) && !is_zero_number(b) {
        assert(folded(core));
        lemma_unsigned(core);
    }
}

proof fn lemma_folded_add_terms(t: Term)
    requires
        folded(t),
    ensures
        all_folded(add_terms(t)),
    decreases t, 0nat,
{
    match t {
        Term::Add(a, b) => {
            lemma_folded_add_terms(*a);
            lemma_folded_add_terms(*b);
            lemma_folded_joined(add_terms(*a), add_terms(*b));
        },
        Term::Sum(v) => {
            lemma_folded_collection(v);
            lemma_folded_add_terms_of(v, v.len());
        },
        _ => {},
    }
}

proof fn lemma_folded_add_terms_of(v: Seq<Term>, n: nat)
    requires
        all_folded(v),
    ensures
        all_folded(add_terms_of(v, n)),
    decreases v, n,
{
    if n == 0 || n > v.len() {
    } else {
        lemma_folded_add_terms_of(v, (n - 1) as nat);
        lemma_folded_add_terms(v[n - 1]);
        lemma_folded_joined(add_terms_of(v, (n - 1) as nat), add_terms(v[n - 1]));
    }
}

proof fn lemma_folded_mul_terms(t: Term)
    requires
        folded(t),
    ensures
        all_folded(mul_terms(t)),
    decreases t, 0nat,
{
    match t {
        Term::Mul(a, b) => {
            lemma_folded_mul_terms(*a);
            lemma_folded_mul_terms(*b);
            lemma_folded_joined(mul_terms(*a), mul_terms(*b));
        },
        Term::Prod(v) => {
            lemma_folded_collection(v);
            lemma_folded_mul_terms_of(v, v.len());
        },
        _ => {},
    }
}

proof fn lemma_folded_mul_terms_of(v: Seq<Term>, n: nat)
    requires
        all_folded(v),
    ensures
        all_folded(mul_terms_of(v, n)),
    decreases v, n,
{
    if n == 0 || n > v.len() {
    } else {
        lemma_folded_mul_terms_of(v, (n - 1) as nat);
        lemma_folded_mul_terms(v[n - 1]);
        lemma_folded_joined(mul_terms_of(v, (n - 1) as nat), mul_terms(v[n - 1]));
    }
}

/// A folded expression, merged, is folded.
pub proof fn lemma_folded_merged(t: Term)
    requires
        folded(t),
    ensures
        folded(merged(t)),
{
    if joins_sum(t) {
        lemma_folded_add_terms(t);
        lemma_folded_sorted(add_terms(t));
        lemma_folded_collection(sorted(add_terms(t)));
    } else if joins_product(t) {
        lemma_folded_mul_terms(t);
        lemma_folded_sorted(mul_terms(t));
        lemma_folded_collection(sorted(mul_terms(t)));
    }
}

/// A nest of multiplications of folded operands becomes a folded product,
/// whatever signs the operands carry.
proof fn lemma_folded_nest(x: Term, y: Term)
    requires
        folded(x),
        folded(y),
        is_multiplicative(x) || is_multiplicative(y),
    ensures
        folded(merged(Term::Mul(Box::new(x), Box::new(y)))),
{
    lemma_folded_mul_terms(x);
    lemma_folded_mul_terms(y);
    lemma_folded_joined(mul_terms(x), mul_terms(y));
    lemma_folded_sorted(mul_terms(x) + mul_terms(y));
    lemma_folded_collection(sorted(mul_terms(x) + mul_terms(y)));
}

proof fn lemma_folded_put(s: Seq<Term>, x: Term)
    requires
        all_folded(s),
        folded(x),
    ensures
        all_folded(put(s, x)),
{
    lemma_folded_pushed(s, x);
}

proof fn lemma_folded_picked(items: Seq<Term>, other: Seq<Term>, present: bool, n: nat)
    requires
        all_folded(items),
    ensures
        all_folded(picked(items, other, present, n)),
    decreases n,
{
    if n == 0 || n > items.len() {
    } else {
        lemma_folded_picked(items, other, present, (n - 1) as nat);
        lemma_folded_put(picked(items, other, present, (n - 1) as nat), items[n - 1]);
    }
}

proof fn lemma_folded_sets(a: Seq<Term>, b: Seq<Term>)
    requires
        all_folded(a),
        all_folded(b),
    ensures
        all_folded(combined(a, b)),
        all_folded(shared(a, b)),
        all_folded(remaining(a, b)),
{
    lemma_folded_joined(a, b);
    lemma_folded_picked(a, b, true, a.len());
    lemma_folded_picked(a, b, false, a.len());
}

/// The factors of a folded expression are folded.
pub proof fn lemma_folded_factors(t: Term)
    requires
        folded(t),
    ensures
        all_folded(factors(t)),
    decreases t, 0nat,
{
    match t {
        Term::Mul(a, b) => {
            lemma_folded_factors(*a);
            lemma_folded_factors(*b);
            lemma_folded_sets(factors(*a), factors(*b));
        },
        Term::Add(a, b) => {
            lemma_folded_factors(*a);
            lemma_folded_factors(*b);
            lemma_folded_sets(factors(*a), factors(*b));
        },
        Term::Sub(a, b) => {
            lemma_folded_factors(*a);
            lemma_folded_factors(*b);
            lemma_folded_sets(factors(*a), factors(*b));
        },
        Term::Div(a, b) => {
            lemma_folded_factors(*a);
            lemma_folded_factors(*b);
            lemma_folded_sets(factors(*a), factors(*b));
        },
        Term::Prod(v) => {
            lemma_folded_collection(v);
            lemma_folded_factors_of_all(v, v.len());
        },
        Term::Sum(v) => {
            lemma_folded_collection(v);
            lemma_folded_factors_of_each(v, v.len());
        },
        Term::Rem(_, _) => {},
        Term::Nop(_) => {},
        _ => {
            lemma_folded_put(Seq::empty(), t);
        },
    }
}

proof fn lemma_folded_factors_of_all(v: Seq<Term>, n: nat)
    requires
        all_folded(v),
    ensures
        all_folded(factors_of_all(v, n)),
    decreases v, n,
{
    if n == 0 || n > v.len() {
    } else {
        lemma_folded_factors_of_all(v, (n - 1) as nat);
        lemma_folded_factors(v[n - 1]);
        lemma_folded_sets(factors_of_all(v, (n - 1) as nat), factors(v[n - 1]));
    }
}

proof fn lemma_folded_factors_of_each(v: Seq<Term>, n: nat)
    requires
        all_folded(v),
    ensures
        all_folded(factors_of_each(v, n)),
    decreases v, n,
{
    if n == 0 || n > v.len() {
    } else if n == 1 {
        lemma_folded_factors(v[0]);
    } else {
        lemma_folded_factors_of_each(v, (n - 1) as nat);
        lemma_folded_factors(v[n - 1]);
        lemma_folded_sets(factors_of_each(v, (n - 1) as nat), factors(v[n - 1]));
    }
}

/// A folded expression with folded factors taken out is folded: the ones
/// that stand where the factors stood break nothing. What comes out is
/// zero, signed, or a literal other than one, only where the expression
/// was.
pub proof fn lemma_folded_without(t: Term, c: Seq<Term>)
    requires
        folded(t),
        all_folded(c),
    ensures
        folded(without(t, c)),
        is_zero_number(without(t, c)) ==> is_zero_number(t),
        is_negative(without(t, c)) ==> is_negative(t),
        without(t, c) is Number ==> without(t, c) == t || is_one(without(t, c)),
    decreases t, 0nat,
{
    if c.len() == 0 {
    } else {
        match t {
            Term::Mul(a, b) => {
                let first = shared(c, factors(*a));
                lemma_folded_factors(*a);
                lemma_folded_sets(c, factors(*a));
                lemma_folded_sets(c, first);
                lemma_folded_without(*a, first);
                lemma_folded_without(*b, remaining(c, first));
            },
            Term::Prod(v) => {
                lemma_folded_collection(v);
                lemma_folded_without_in_turn(v, c, v.len());
                lemma_folded_collection(without_in_turn(v, c, v.len()).0);
            },
            Term::Add(a, b) => {
                lemma_folded_without(*a, c);
                lemma_folded_without(*b, c);
            },
            Term::Sub(a, b) => {
                lemma_folded_without(*a, c);
                lemma_folded_without(*b, c);
            },
            Term::Sum(v) => {
                lemma_folded_collection(v);
                lemma_folded_without_in_each(v, c, v.len());
                lemma_folded_collection(without_in_each(v, c, v.len()));
            },
            Term::Div(a, b) => {
                lemma_folded_without(*a, c);
            },
            _ => {},
        }
    }
}

proof fn lemma_folded_without_in_turn(v: Seq<Term>, c: Seq<Term>, n: nat)
    requires
        all_folded(v),
        all_folded(c),
    ensures
        all_folded(without_in_turn(v, c, n).0),
        all_folded(without_in_turn(v, c, n).1),
    decreases v, n,
{
    if n == 0 || n > v.len() {
    } else {
        lemma_folded_without_in_turn(v, c, (n - 1) as nat);
        let (done, left) = without_in_turn(v, c, (n - 1) as nat);
        let here = shared(left, factors(v[n - 1]));
        lemma_folded_factors(v[n - 1]);
        lemma_folded_sets(left, factors(v[n - 1]));
        lemma_folded_sets(left, here);
        lemma_folded_without(v[n - 1], here);
        lemma_folded_pushed(done, without(v[n - 1], here));
    }
}

proof fn lemma_folded_without_in_each(v: Seq<Term>, c: Seq<Term>, n: nat)
    requires
        all_folded(v),
        all_folded(c),
    ensures
        all_folded(without_in_each(v, c, n)),
    decreases v, n,
{
    if n == 0 || n > v.len() {
    } else {
        lemma_folded_without_in_each(v, c, (n - 1) as nat);
        lemma_folded_without(v[n - 1], c);
        lemma_folded_pushed(without_in_each(v, c, (n - 1) as nat), without(v[n - 1], c));
    }
}

proof fn lemma_folded_pair(t: Term)
    requires
        folded(t),
    ensures
        pair_of(t) matches Some(p) ==> folded(p.0) && folded(p.1),
{
    if let Term::Prod(v) = t {
        lemma_folded_collection(v);
        if v.len() == 2 {
            assert(folded(v[0]));
            assert(folded(v[1]));
        }
    }
}

proof fn lemma_folded_sine_theorem(p: (Term, Term), q: (Term, Term), minus: bool)
    requires
        folded(p.0),
        folded(p.1),
    ensures
        sine_theorem(p, q, minus) matches Some(r) ==> folded(r),
{
    match sine_cosine(p) {
        Some((x, y)) => {
            assert(folded(x));
            assert(folded(y));
            assert(!is_zero_number(x) && !is_zero_number(y));
            assert(folded(angle(x, y, !minus)));
        },
        None => {},
    }
}

proof fn lemma_folded_cosine_theorem(p: (Term, Term), q: (Term, Term), minus: bool)
    requires
        folded(p.0),
        folded(p.1),
    ensures
        cosine_theorem(p, q, minus) matches Some(r) ==> folded(r),
{
    match two_cosines(p) {
        Some((x, y)) => {
            assert(folded(x));
            assert(folded(y));
            assert(!is_zero_number(x) && !is_zero_number(y));
            assert(folded(angle(x, y, minus)));
        },
        None => {},
    }
}

proof fn lemma_folded_trig(a: Term, b: Term, minus: bool)
    requires
        folded(a),
        folded(b),
    ensures
        trig_identity(a, b, minus) matches Some(r) ==> folded(r),
{
    lemma_folded_pair(a);
    lemma_folded_pair(b);
    match (pair_of(a), pair_of(b)) {
        (Some(p), Some(q)) => {
            lemma_folded_sine_theorem(p, q, minus);
            lemma_folded_cosine_theorem(p, q, minus);
            lemma_folded_cosine_theorem(q, p, false);
        },
        _ => {},
    }
}

proof fn lemma_folded_kept_factors(v: Seq<Term>, n: nat)
    requires
        all_folded(v),
    ensures
        all_folded(kept_factors(v, n)),
    decreases n,
{
    if n == 0 || n > v.len() {
    } else {
        lemma_folded_kept_factors(v, (n - 1) as nat);
        assert(folded(v[n - 1]));
        assert(folded(bare(v[n - 1])));
        lemma_folded_pushed(kept_factors(v, (n - 1) as nat), bare(v[n - 1]));
    }
}

proof fn lemma_folded_prod_rule(v: Seq<Term>)
    requires
        all_folded(v),
    ensures
        folded(prod_rule(v)),
{
    let rest = kept_factors(v, v.len());
    lemma_folded_kept_factors(v, v.len());
    lemma_folded_collection(rest);
    lemma_folded_merged(Term::Prod(rest));
}

/// What is left of a folded expression, cleared, is folded.
pub proof fn lemma_folded_cleared(t: Term)
    requires
        folded(t),
    ensures
        folded(cleared(t)),
    decreases t, 0nat,
{
    match t {
        Term::Mul(a, b) => {
            lemma_folded_cleared(*a);
            lemma_folded_cleared(*b);
            lemma_folded_products(cleared(*a), cleared(*b));
        },
        Term::Prod(v) => {
            lemma_folded_collection(v);
            lemma_folded_cleared_each(v, v.len());
            lemma_folded_prod_rule(cleared_each(v, v.len()));
        },
        Term::Add(a, b) => {
            lemma_folded_cleared(*a);
            lemma_folded_cleared(*b);
            lemma_folded_operators(cleared(*a), cleared(*b));
        },
        Term::Sub(a, b) => {
            lemma_folded_cleared(*a);
            lemma_folded_cleared(*b);
            lemma_folded_operators(cleared(*a), cleared(*b));
        },
        Term::Sum(v) => {
            lemma_folded_collection(v);
            lemma_folded_cleared_each(v, v.len());
            lemma_folded_collection(cleared_each(v, v.len()));
        },
        Term::Div(a, b) => {
            lemma_folded_cleared(*a);
            lemma_folded_operators(cleared(*a), *b);
        },
        _ => {},
    }
}

proof fn lemma_folded_cleared_each(v: Seq<Term>, n: nat)
    requires
        all_folded(v),
    ensures
        all_folded(cleared_each(v, n)),
    decreases v, n,
{
    if n == 0 || n > v.len() {
    } else {
        lemma_folded_cleared_each(v, (n - 1) as nat);
        assert(folded(v[n - 1]));
        lemma_folded_cleared(v[n - 1]);
        lemma_folded_pushed(cleared_each(v, (n - 1) as nat), cleared(v[n - 1]));
    }
}

proof fn lemma_folded_extracted(t: Term)
    requires
        folded(t),
    ensures
        folded(extracted(t)),
{
    let flat = merged(t);
    lemma_folded_merged(t);
    let c = factors(flat);
    lemma_folded_factors(flat);
    if c.len() > 0 {
        lemma_folded_without(flat, c);
        lemma_folded_cleared(without(flat, c));
        lemma_folded_collection(c);
        lemma_folded_nest(Term::Prod(c), cleared(without(flat, c)));
    }
}

proof fn lemma_folded_sums(a: Term, b: Term)
    requires
        folded(a),
        folded(b),
    ensures
        folded(add_rule(a, b)),
        folded(sub_rule(a, b)),
{
    lemma_folded_trig(a, b, false);
    lemma_folded_trig(a, b, true);
    lemma_folded_operators(a, b);
    lemma_folded_operators(b, a);
    if let Term::UnSub(x) = b {
        lemma_folded_operators(a, *x);
    }
    if let Term::UnSub(x) = a {
        lemma_folded_operators(b, *x);
        lemma_folded_operators(*x, b);
        lemma_folded_operators(sum_of(*x, b), b);
    }
    if !sum_folds(a, b) {
        lemma_folded_extracted(Term::Add(Box::new(a), Box::new(b)));
    }
    if !difference_folds(a, b) {
        lemma_folded_extracted(Term::Sub(Box::new(a), Box::new(b)));
    }
}

proof fn lemma_folded_products(a: Term, b: Term)
    requires
        folded(a),
        folded(b),
    ensures
        folded(mul_rule(a, b)),
        folded(div_rule(a, b)),
{
    lemma_folded_operators(a, b);
    match product_of(a, b) {
        Term::Mul(x, y) => {
            lemma_folded_merged(Term::Mul(x, y));
        },
        Term::UnSub(inner) => {
            if *inner is Mul {
                lemma_folded_merged(*inner);
            }
        },
        _ => {},
    }
    match quotient_of(a, b) {
        Term::Div(n, d) => {
            let c = shared(factors(*n), factors(*d));
            lemma_folded_factors(*n);
            lemma_folded_factors(*d);
            lemma_folded_sets(factors(*n), factors(*d));
            lemma_folded_without(*n, c);
            lemma_folded_without(*d, c);
            lemma_folded_operators(without(*n, c), without(*d, c));
        },
        _ => {},
    }
}

proof fn lemma_folded_plain_terms(v: Seq<Term>, n: nat)
    requires
        all_folded(v),
    ensures
        all_folded(plain_terms(v, n)),
    decreases n,
{
    if n == 0 || n > v.len() {
    } else {
        lemma_folded_plain_terms(v, (n - 1) as nat);
        lemma_folded_pushed(plain_terms(v, (n - 1) as nat), v[n - 1]);
    }
}

proof fn lemma_folded_sum_of_terms(list: Seq<Term>)
    requires
        all_folded(list),
    ensures
        folded(sum_of_terms(list)),
{
    if list.len() >= 2 {
        lemma_folded_collection(list);
        lemma_folded_extracted(Term::Sum(list));
    } else if list.len() == 1 {
        assert(folded(list[0]));
    }
}

proof fn lemma_folded_collections(v: Seq<Term>)
    requires
        all_folded(v),
    ensures
        folded(sum_rule(v)),
        folded(prod_rule(v)),
{
    let terms = plain_terms(v, v.len());
    lemma_folded_plain_terms(v, v.len());
    lemma_folded_sum_of_terms(terms);
    let literal = Term::Number(literal_term(v, v.len()));
    lemma_folded_pushed(terms, literal);
    lemma_folded_sum_of_terms(terms.push(literal));
    lemma_folded_prod_rule(v);
}

/// One pass leaves every expression folded.
pub proof fn lemma_reduced_is_folded(t: Term)
    ensures
        folded(reduced(t)),
    decreases t, 0nat,
{
    match t {
        Term::Sqrt(s) => {
            lemma_reduced_is_folded(*s);
        },
        Term::Sin(s) => {
            lemma_reduced_is_folded(*s);
            lemma_folded_operators(reduced(*s), reduced(*s));
        },
        Term::Cos(s) => {
            lemma_reduced_is_folded(*s);
            lemma_folded_operators(reduced(*s), reduced(*s));
        },
        Term::UnSub(s) => {
            lemma_reduced_is_folded(*s);
            lemma_unsigned(reduced(*s));
        },
        Term::Add(a, b) => {
            lemma_reduced_is_folded(*a);
            lemma_reduced_is_folded(*b);
            lemma_folded_sums(reduced(*a), reduced(*b));
        },
        Term::Sub(a, b) => {
            lemma_reduced_is_folded(*a);
            lemma_reduced_is_folded(*b);
            lemma_folded_sums(reduced(*a), reduced(*b));
        },
        Term::Mul(a, b) => {
            lemma_reduced_is_folded(*a);
            lemma_reduced_is_folded(*b);
            lemma_folded_products(reduced(*a), reduced(*b));
        },
        Term::Div(a, b) => {
            lemma_reduced_is_folded(*a);
            lemma_reduced_is_folded(*b);
            lemma_folded_products(reduced(*a), reduced(*b));
        },
        Term::Sum(v) => {
            lemma_reduced_each_is_folded(v, v.len());
            lemma_folded_collections(reduced_each(v, v.len()));
        },
        Term::Prod(v) => {
            lemma_reduced_each_is_folded(v, v.len());
            lemma_folded_collections(reduced_each(v, v.len()));
        },
        _ => {},
    }
}

proof fn lemma_reduced_each_is_folded(v: Seq<Term>, n: nat)
    ensures
        all_folded(reduced_each(v, n)),
    decreases v, n,
{
    if n == 0 || n > v.len() {
    } else {
        lemma_reduced_each_is_folded(v, (n - 1) as nat);
        lemma_reduced_is_folded(v[n - 1]);
        lemma_folded_pushed(reduced_each(v, (n - 1) as nat), reduced(v[n - 1]));
    }
}

proof fn lemma_settled_is_folded(t: Term, fuel: nat)
    ensures
        folded(settled(t, fuel)),
    decreases fuel,
{
    lemma_reduced_is_folded(t);
    if reduced(t) != t && fuel > 0 {
        lemma_settled_is_folded(reduced(t), (fuel - 1) as nat);
    }
}

/// Every simplified expression is folded.
pub proof fn lemma_simplified_is_folded(t: Term)
    ensures
        folded(simplified(t)),
{
    lemma_settled_is_folded(t, PASS_LIMIT as nat);
}

/// Whether somewhere in the expression, below marks and remainders too,
/// an addition or a subtraction has two literal zeros as its operands.
pub open spec fn has_sum_of_zeros(t: Term) -> bool
    decreases t, 0nat,
{
    match t {
        Term::Add(a, b) => (is_zero_number(*a) && is_zero_number(*b)) || has_sum_of_zeros(*a)
            || has_sum_of_zeros(*b),
        Term::Sub(a, b) => (is_zero_number(*a) && is_zero_number(*b)) || has_sum_of_zeros(*a)
            || has_sum_of_zeros(*b),
        Term::Mul(a, b) => has_sum_of_zeros(*a) || has_sum_of_zeros(*b),
        Term::Div(a, b) => has_sum_of_zeros(*a) || has_sum_of_zeros(*b),
        Term::Rem(a, b) => has_sum_of_zeros(*a) || has_sum_of_zeros(*b),
        Term::Sqrt(s) => has_sum_of_zeros(*s),
        Term::Sin(s) => has_sum_of_zeros(*s),
        Term::Cos(s) => has_sum_of_zeros(*s),
        Term::UnSub(s) => has_sum_of_zeros(*s),
        Term::Nop(s) => has_sum_of_zeros(*s),
        Term::Sum(v) => any_has_sum_of_zeros(v, v.len()),
        Term::Prod(v) => any_has_sum_of_zeros(v, v.len()),
        _ => false,
    }
}

/// Whether one of the first `n` members has such an addition or
/// subtraction.
pub open spec fn any_has_sum_of_zeros(v: Seq<Term>, n: nat) -> bool
    decreases v, n,
{
    if n == 0 || n > v.len() {
        false
    } else {
        any_has_sum_of_zeros(v, (n - 1) as nat) || has_sum_of_zeros(v[n - 1])
    }
}

/// A folded expression that holds no mark and no remainder has no addition
/// or subtraction of two literal zeros anywhere.
pub proof fn lemma_folded_has_no_sum_of_zeros(t: Term)
    requires
        folded(t),
        !has_mark(t),
        !has_remainder(t),
    ensures
        !has_sum_of_zeros(t),
    decreases t, 0nat,
{
    match t {
        Term::Add(a, b) => {
            lemma_folded_has_no_sum_of_zeros(*a);
            lemma_folded_has_no_sum_of_zeros(*b);
        },
        Term::Sub(a, b) => {
            lemma_folded_has_no_sum_of_zeros(*a);
            lemma_folded_has_no_sum_of_zeros(*b);
        },
        Term::Mul(a, b) => {
            lemma_folded_has_no_sum_of_zeros(*a);
            lemma_folded_has_no_sum_of_zeros(*b);
        },
        Term::Div(a, b) => {
            lemma_folded_has_no_sum_of_zeros(*a);
            lemma_folded_has_no_sum_of_zeros(*b);
        },
        Term::Sqrt(s) => {
            lemma_folded_has_no_sum_of_zeros(*s);
        },
        Term::Sin(s) => {
            lemma_folded_has_no_sum_of_zeros(*s);
        },
        Term::Cos(s) => {
            lemma_folded_has_no_sum_of_zeros(*s);
        },
        Term::UnSub(s) => {
            lemma_folded_has_no_sum_of_zeros(*s);
        },
        Term::Sum(v) => {
            lemma_members_have_no_sum_of_zeros(v, v.len());
        },
        Term::Prod(v) => {
            lemma_members_have_no_sum_of_zeros(v, v.len());
        },
        _ => {},
    }
}

proof fn lemma_members_have_no_sum_of_zeros(v: Seq<Term>, n: nat)
    requires
        folded_upto(v, n),
        !any_has_mark(v, n),
        !any_has_remainder(v, n),
    ensures
        !any_has_sum_of_zeros(v, n),
    decreases v, n,
{
    if n == 0 || n > v.len() {
    } else {
        lemma_members_have_no_sum_of_zeros(v, (n - 1) as nat);
        lemma_folded_has_no_sum_of_zeros(v[n - 1]);
    }
}

proof fn lemma_settled_has_no_sum_of_zeros(t: Term, fuel: nat)
    requires
        !has_mark(t),
        !has_remainder(t),
    ensures
        !has_sum_of_zeros(settled(t, fuel)),
    decreases fuel,
{
    let next = reduced(t);
    lemma_reduced_is_folded(t);
    crate::marks::lemma_unmarked_reduced(t);
    crate::clean::lemma_clean_reduced(t);
    lemma_folded_has_no_sum_of_zeros(next);
    if next == t {
    } else if fuel == 0 {
        assert(has_sum_of_zeros(Term::Nop(Box::new(next))) == has_sum_of_zeros(next));
    } else {
        lemma_settled_has_no_sum_of_zeros(next, (fuel - 1) as nat);
    }
}

/// The simplified form of an expression that holds no mark and no
/// remainder has no addition or subtraction of two literal zeros anywhere:
/// also where the passes were stopped at their limit.
pub proof fn lemma_simplified_has_no_sum_of_zeros(t: Term)
    requires
        !has_mark(t),
        !has_remainder(t),
    ensures
        !has_sum_of_zeros(simplified(t)),
        !has_remainder(simplified(t)),
        folded(simplified(t)),
{
    lemma_simplified_is_folded(t);
    crate::clean::lemma_clean_simplified(t);
    lemma_settled_has_no_sum_of_zeros(t, PASS_LIMIT as nat);
}

fn every_folded(v: &Vec<Sym>) -> (r: bool)
    ensures
        r == folded_upto(terms_of(v@), v@.len()),
    decreases v, 1nat,
{
    let mut i: usize = 0;
    while i < v.len()
        invariant
            i <= v.len(),
            folded_upto(terms_of(v@), i as nat),
        decreases v.len() - i,
    {
        if !v[i].is_folded() {
            proof {
                lemma_folded_upto(terms_of(v@), (i + 1) as nat);
                lemma_folded_upto(terms_of(v@), v@.len());
            }
            return false;
        }
        i += 1;
    }
    true
}

impl Sym {
    /// Whether every node of this expression is well built.
    pub fn is_folded(&self) -> (r: bool)
        ensures
            r == folded(self@),
        decreases self, 0nat,
    {
        match self {
            Sym::Operation(o) => o.is_folded(),
            _ => true,
        }
    }
}

impl Operation {
    /// Whether every node of this expression is well built.
    pub fn is_folded(&self) -> (r: bool)
        ensures
            r == folded(self@),
        decreases self, 0nat,
    {
        match self {
            Operation::Sqrt(s) => s.is_folded(),
            Operation::Sin(s) => !s.is_zero() && s.is_folded(),
            Operation::Cos(s) => !s.is_zero() && s.is_folded(),
            Operation::UnSub(s) => {
                let plain = match s {
                    Sym::Number(_) => false,
                    Sym::Operation(i) => match &**i {
                        Operation::UnSub(_) => false,
                        _ => true,
                    },
                    _ => true,
                };
                plain && s.is_folded()
            },
            Operation::Add(a, b) => !a.is_zero() && !b.is_zero() && a.is_folded()
                && b.is_folded(),
            Operation::Sub(a, b) => !a.is_zero() && !b.is_zero() && a.is_folded()
                && b.is_folded(),
            Operation::Mul(a, b) => !a.is_zero() && !b.is_zero() && !(a.is_number()
                && b.is_number() && !a.is_one() && !b.is_one()) && !a.negative() && !b.negative()
                && a.is_folded() && b.is_folded(),
            Operation::Div(a, b) => !a.is_zero() && !(a.is_number() && b.is_number()
                && !a.is_one()) && !(b.is_number() && b.negative()) && a.is_folded()
                && b.is_folded(),
            Operation::Sum(v) => every_folded(v),
            Operation::Prod(v) => every_folded(v),
            Operation::Rem(_, _) => true,
            Operation::Nop(_) => true,
        }
    }
}

fn holds_sum_of_zeros_in(v: &Vec<Sym>) -> (r: bool)
    ensures
        r == any_has_sum_of_zeros(terms_of(v@), v@.len()),
    decreases v, 1nat,
{
    let mut i: usize = 0;
    while i < v.len()
        invariant
            i <= v.len(),
            !any_has_sum_of_zeros(terms_of(v@), i as nat),
        decreases v.len() - i,
    {
        if v[i].holds_sum_of_zeros() {
            proof {
                lemma_sum_of_zeros_found(terms_of(v@), i as int, v@.len());
            }
            return true;
        }
        i += 1;
    }
    false
}

proof fn lemma_sum_of_zeros_found(v: Seq<Term>, i: int, n: nat)
    requires
        0 <= i < n <= v.len(),
        has_sum_of_zeros(v[i]),
    ensures
        any_has_sum_of_zeros(v, n),
    decreases n,
{
    if n - 1 > i {
        lemma_sum_of_zeros_found(v, i, (n - 1) as nat);
    }
}

impl Sym {
    /// Whether an addition or a subtraction somewhere in this expression has
    /// two literal zeros as its operands.
    pub fn holds_sum_of_zeros(&self) -> (r: bool)
        ensures
            r == has_sum_of_zeros(self@),
        decreases self, 0nat,
    {
        match self {
            Sym::Operation(o) => o.holds_sum_of_zeros(),
            _ => false,
        }
    }
}

impl Operation {
    /// Whether an addition or a subtraction somewhere in this expression has
    /// two literal zeros as its operands.
    pub fn holds_sum_of_zeros(&self) -> (r: bool)
        ensures
            r == has_sum_of_zeros(self@),
        decreases self, 0nat,
    {
        match self {
            Operation::Sqrt(s) => s.holds_sum_of_zeros(),
            Operation::Sin(s) => s.holds_sum_of_zeros(),
            Operation::Cos(s) => s.holds_sum_of_zeros(),
            Operation::UnSub(s) => s.holds_sum_of_zeros(),
            Operation::Nop(s) => s.holds_sum_of_zeros(),
            Operation::Add(a, b) => (a.is_zero() && b.is_zero()) || a.holds_sum_of_zeros() || b.holds_sum_of_zeros(),
            Operation::Sub(a, b) => (a.is_zero() && b.is_zero()) || a.holds_sum_of_zeros() || b.holds_sum_of_zeros(),
            Operation::Mul(a, b) => a.holds_sum_of_zeros() || b.holds_sum_of_zeros(),
            Operation::Div(a, b) => a.holds_sum_of_zeros() || b.holds_sum_of_zeros(),
            Operation::Rem(a, b) => a.holds_sum_of_zeros() || b.holds_sum_of_zeros(),
            Operation::Sum(v) => holds_sum_of_zeros_in(v),
            Operation::Prod(v) => holds_sum_of_zeros_in(v),
        }
    }
}

} // verus!
