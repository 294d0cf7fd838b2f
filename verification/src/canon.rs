//! The canonical form of commutative expressions.
//!
//! An addition of two additions or sums becomes one sum, a multiplication
//! of two multiplications or products one product, and the operands of
//! every sum, product, addition and multiplication stand in canonical
//! order. Two expressions that differ only in the order of such operands
//! have the same canonical form. The simplifier merges more: an addition or
//! a multiplication with one operand of its kind too.
use crate::arith::sum_of;
use crate::order::{
    lemma_sorted, lemma_sorted_is_unique, lemma_sorted_twice, lemma_term_order_total, precedes,
    sort_syms, sorted, term_le, term_order,
};
use crate::syms::{terms_of, Operation, Sym, Term};
use vstd::prelude::*;

verus! {

/// An addition or a sum.
pub open spec fn is_additive(t: Term) -> bool {
    t is Add || t is Sum
}

/// A multiplication or a product.
pub open spec fn is_multiplicative(t: Term) -> bool {
    t is Mul || t is Prod
}

/// The terms of a nest of additions and sums, left to right.
pub open spec fn add_terms(t: Term) -> Seq<Term>
    decreases t, 0nat,
{
    match t {
        Term::Add(a, b) => add_terms(*a) + add_terms(*b),
        Term::Sum(v) => add_terms_of(v, v.len()),
        _ => seq![t],
    }
}

/// The terms of the first `n` members of a sum.
pub open spec fn add_terms_of(v: Seq<Term>, n: nat) -> Seq<Term>
    decreases v, n,
{
    if n == 0 || n > v.len() {
        Seq::empty()
    } else {
        add_terms_of(v, (n - 1) as nat) + add_terms(v[n - 1])
    }
}

/// The factors of a nest of multiplications and products, left to right.
pub open spec fn mul_terms(t: Term) -> Seq<Term>
    decreases t, 0nat,
{
    match t {
        Term::Mul(a, b) => mul_terms(*a) + mul_terms(*b),
        Term::Prod(v) => mul_terms_of(v, v.len()),
        _ => seq![t],
    }
}

/// The factors of the first `n` members of a product.
pub open spec fn mul_terms_of(v: Seq<Term>, n: nat) -> Seq<Term>
    decreases v, n,
{
    if n == 0 || n > v.len() {
        Seq::empty()
    } else {
        mul_terms_of(v, (n - 1) as nat) + mul_terms(v[n - 1])
    }
}

/// Whether an expression is a sum, or an addition of two operands that are
/// additions or sums themselves.
pub open spec fn nests_sum(t: Term) -> bool {
    match t {
        Term::Add(a, b) => is_additive(*a) && is_additive(*b),
        Term::Sum(_) => true,
        _ => false,
    }
}

/// Whether an expression is a sum, or an addition with an operand that is
/// an addition or a sum.
pub open spec fn joins_sum(t: Term) -> bool {
    match t {
        Term::Add(a, b) => is_additive(*a) || is_additive(*b),
        Term::Sum(_) => true,
        _ => false,
    }
}

/// Whether an expression is a product, or a multiplication with an operand
/// that is a multiplication or a product.
pub open spec fn joins_product(t: Term) -> bool {
    match t {
        Term::Mul(a, b) => is_multiplicative(*a) || is_multiplicative(*b),
        Term::Prod(_) => true,
        _ => false,
    }
}

/// What the simplifier makes of a nest: an addition or a multiplication
/// goes into one sum or product with any operand of its kind, not only
/// where both operands are of it; then the operands are ordered.
pub open spec fn merged(t: Term) -> Term {
    if joins_sum(t) {
        Term::Sum(sorted(add_terms(t)))
    } else if joins_product(t) {
        Term::Prod(sorted(mul_terms(t)))
    } else {
        ordered(t)
    }
}

/// Whether an expression is a product, or a multiplication of two operands
/// that are multiplications or products themselves.
pub open spec fn nests_product(t: Term) -> bool {
    match t {
        Term::Mul(a, b) => is_multiplicative(*a) && is_multiplicative(*b),
        Term::Prod(_) => true,
        _ => false,
    }
}

/// A nest of additions as one sum, a nest of multiplications as one
/// product; any other expression as it is.
pub open spec fn flattened(t: Term) -> Term {
    if nests_sum(t) {
        Term::Sum(add_terms(t))
    } else if nests_product(t) {
        Term::Prod(mul_terms(t))
    } else {
        t
    }
}

/// The operands of a sum, product, addition or multiplication in canonical
/// order; any other expression as it is.
pub open spec fn ordered(t: Term) -> Term {
    match t {
        Term::Add(a, b) => if term_le(*a, *b) {
            t
        } else {
            Term::Add(b, a)
        },
        Term::Mul(a, b) => if term_le(*a, *b) {
            t
        } else {
            Term::Mul(b, a)
        },
        Term::Sum(v) => Term::Sum(sorted(v)),
        Term::Prod(v) => Term::Prod(sorted(v)),
        _ => t,
    }
}

/// The canonical form: flattened, then ordered.
pub open spec fn canonical(t: Term) -> Term {
    ordered(flattened(t))
}

/// No member of a collection satisfies `p`.
pub open spec fn none_is(s: Seq<Term>, p: spec_fn(Term) -> bool) -> bool {
    forall|i: int| 0 <= i < s.len() ==> !p(#[trigger] s[i])
}

proof fn lemma_none_is_joined(x: Seq<Term>, y: Seq<Term>, p: spec_fn(Term) -> bool)
    requires
        none_is(x, p),
        none_is(y, p),
    ensures
        none_is(x + y, p),
{
    assert forall|i: int| 0 <= i < (x + y).len() implies !p(#[trigger] (x + y)[i]) by {
        if i < x.len() {
            assert((x + y)[i] == x[i]);
        } else {
            assert((x + y)[i] == y[i - x.len()]);
        }
    }
}

proof fn lemma_none_is_sorted(s: Seq<Term>, p: spec_fn(Term) -> bool)
    requires
        none_is(s, p),
    ensures
        none_is(sorted(s), p),
{
    lemma_sorted(s);
    assert forall|i: int| 0 <= i < sorted(s).len() implies !p(#[trigger] sorted(s)[i]) by {
        let x = sorted(s)[i];
        assert(sorted(s).contains(x));
        assert(s.contains(x));
        let j = choose|j: int| 0 <= j < s.len() && s[j] == x;
        assert(!p(s[j]));
    }
}

/// Being an addition or a sum, as a predicate.
pub open spec fn additive() -> spec_fn(Term) -> bool {
    |t: Term| is_additive(t)
}

/// Being a multiplication or a product, as a predicate.
pub open spec fn multiplicative() -> spec_fn(Term) -> bool {
    |t: Term| is_multiplicative(t)
}

/// No term of a nest of additions is itself an addition or a sum.
pub proof fn lemma_add_terms_plain(t: Term)
    ensures
        none_is(add_terms(t), additive()),
    decreases t, 0nat,
{
    match t {
        Term::Add(a, b) => {
            lemma_add_terms_plain(*a);
            lemma_add_terms_plain(*b);
            lemma_none_is_joined(add_terms(*a), add_terms(*b), additive());
        },
        Term::Sum(v) => {
            lemma_add_terms_of_plain(v, v.len());
        },
        _ => {},
    }
}

proof fn lemma_add_terms_of_plain(v: Seq<Term>, n: nat)
    ensures
        none_is(add_terms_of(v, n), additive()),
    decreases v, n,
{
    if n == 0 || n > v.len() {
    } else {
        lemma_add_terms_of_plain(v, (n - 1) as nat);
        lemma_add_terms_plain(v[n - 1]);
        lemma_none_is_joined(add_terms_of(v, (n - 1) as nat), add_terms(v[n - 1]), additive());
    }
}

/// A sum whose members are no additions or sums is its own list of terms.
pub proof fn lemma_add_terms_of_flat(v: Seq<Term>, n: nat)
    requires
        n <= v.len(),
        none_is(v, additive()),
    ensures
        add_terms_of(v, n) == v.take(n as int),
    decreases n,
{
    if n > 0 {
        lemma_add_terms_of_flat(v, (n - 1) as nat);
        assert(!additive()(v[n - 1]));
        assert(add_terms(v[n - 1]) == seq![v[n - 1]]);
        assert(v.take(n as int) =~= v.take(n - 1) + seq![v[n - 1]]);
    } else {
        assert(v.take(0) =~= Seq::<Term>::empty());
    }
}

/// No factor of a nest of multiplications is itself a multiplication or a
/// product.
pub proof fn lemma_mul_terms_plain(t: Term)
    ensures
        none_is(mul_terms(t), multiplicative()),
    decreases t, 0nat,
{
    match t {
        Term::Mul(a, b) => {
            lemma_mul_terms_plain(*a);
            lemma_mul_terms_plain(*b);
            lemma_none_is_joined(mul_terms(*a), mul_terms(*b), multiplicative());
        },
        Term::Prod(v) => {
            lemma_mul_terms_of_plain(v, v.len());
        },
        _ => {},
    }
}

proof fn lemma_mul_terms_of_plain(v: Seq<Term>, n: nat)
    ensures
        none_is(mul_terms_of(v, n), multiplicative()),
    decreases v, n,
{
    if n == 0 || n > v.len() {
    } else {
        lemma_mul_terms_of_plain(v, (n - 1) as nat);
        lemma_mul_terms_plain(v[n - 1]);
        lemma_none_is_joined(
            mul_terms_of(v, (n - 1) as nat),
            mul_terms(v[n - 1]),
            multiplicative(),
        );
    }
}

/// A product whose members are no multiplications or products is its own
/// list of factors.
pub proof fn lemma_mul_terms_of_flat(v: Seq<Term>, n: nat)
    requires
        n <= v.len(),
        none_is(v, multiplicative()),
    ensures
        mul_terms_of(v, n) == v.take(n as int),
    decreases n,
{
    if n > 0 {
        lemma_mul_terms_of_flat(v, (n - 1) as nat);
        assert(!multiplicative()(v[n - 1]));
        assert(mul_terms(v[n - 1]) == seq![v[n - 1]]);
        assert(v.take(n as int) =~= v.take(n - 1) + seq![v[n - 1]]);
    } else {
        assert(v.take(0) =~= Seq::<Term>::empty());
    }
}

/// The canonical form of a canonical form is that form.
pub proof fn lemma_canonical_idempotent(t: Term)
    ensures
        canonical(canonical(t)) == canonical(t),
{
    lemma_term_order_total();
    if nests_sum(t) {
        let s = add_terms(t);
        let r = sorted(s);
        lemma_add_terms_plain(t);
        lemma_none_is_sorted(s, additive());
        lemma_add_terms_of_flat(r, r.len());
        assert(r.take(r.len() as int) =~= r);
        lemma_sorted_twice(s);
    } else if nests_product(t) {
        let s = mul_terms(t);
        let r = sorted(s);
        lemma_mul_terms_plain(t);
        lemma_none_is_sorted(s, multiplicative());
        lemma_mul_terms_of_flat(r, r.len());
        assert(r.take(r.len() as int) =~= r);
        lemma_sorted_twice(s);
    } else {
        match t {
            Term::Add(a, b) => {
                assert(term_le(*a, *b) || term_le(*b, *a)) by {
                    assert(term_order()(*a, *b) || term_order()(*b, *a));
                }
            },
            Term::Mul(a, b) => {
                assert(term_le(*a, *b) || term_le(*b, *a)) by {
                    assert(term_order()(*a, *b) || term_order()(*b, *a));
                }
            },
            _ => {},
        }
    }
}

/// The canonical form of an addition does not depend on the order of its
/// operands.
pub proof fn lemma_canonical_addition_commutes(a: Term, b: Term)
    ensures
        canonical(Term::Add(Box::new(a), Box::new(b))) == canonical(
            Term::Add(Box::new(b), Box::new(a)),
        ),
{
    broadcast use vstd::seq_lib::lemma_seq_union_to_multiset_commutative;

    lemma_term_order_total();
    let ab = Term::Add(Box::new(a), Box::new(b));
    let ba = Term::Add(Box::new(b), Box::new(a));
    if nests_sum(ab) {
        let s = add_terms(a) + add_terms(b);
        let r = add_terms(b) + add_terms(a);
        assert(s.to_multiset() =~= r.to_multiset());
        lemma_sorted(s);
        lemma_sorted(r);
        lemma_sorted_is_unique(s, sorted(r));
    } else {
        assert(term_order()(a, b) || term_order()(b, a));
        if term_le(a, b) && term_le(b, a) {
            assert(term_order()(a, b) && term_order()(b, a));
            assert(a == b);
        }
    }
}

/// The canonical form of a multiplication does not depend on the order of
/// its operands.
pub proof fn lemma_canonical_multiplication_commutes(a: Term, b: Term)
    ensures
        canonical(Term::Mul(Box::new(a), Box::new(b))) == canonical(
            Term::Mul(Box::new(b), Box::new(a)),
        ),
{
    broadcast use vstd::seq_lib::lemma_seq_union_to_multiset_commutative;

    lemma_term_order_total();
    let ab = Term::Mul(Box::new(a), Box::new(b));
    if nests_product(ab) {
        let s = mul_terms(a) + mul_terms(b);
        let r = mul_terms(b) + mul_terms(a);
        assert(s.to_multiset() =~= r.to_multiset());
        lemma_sorted(s);
        lemma_sorted(r);
        lemma_sorted_is_unique(s, sorted(r));
    } else {
        assert(term_order()(a, b) || term_order()(b, a));
        if term_le(a, b) && term_le(b, a) {
            assert(term_order()(a, b) && term_order()(b, a));
            assert(a == b);
        }
    }
}

/// The canonical form of `a + b` is the canonical form of `b + a`.
pub proof fn lemma_canonical_sum_commutes(a: Term, b: Term)
    ensures
        canonical(sum_of(a, b)) == canonical(sum_of(b, a)),
{
    crate::arith::lemma_sum_commutes(a, b);
    lemma_canonical_addition_commutes(a, b);
}

fn push_add_terms(out: &mut Vec<Sym>, s: &Sym)
    ensures
        terms_of(final(out)@) == terms_of(old(out)@) + add_terms(s@),
    decreases s, 0nat,
{
    match s {
        Sym::Operation(o) => {
            push_operation_add_terms(out, o);
        },
        _ => {
            out.push(s.duplicate());
            assert(terms_of(out@) =~= terms_of(old(out)@) + add_terms(s@));
        },
    }
}

fn push_add_terms_of(out: &mut Vec<Sym>, v: &Vec<Sym>)
    ensures
        terms_of(final(out)@) == terms_of(old(out)@) + add_terms_of(terms_of(v@), v@.len()),
    decreases v, 1nat,
{
    let ghost terms = terms_of(v@);
    let mut i: usize = 0;
    assert(terms_of(out@) =~= terms_of(old(out)@) + add_terms_of(terms, 0));
    while i < v.len()
        invariant
            i <= v.len(),
            terms == terms_of(v@),
            terms_of(out@) == terms_of(old(out)@) + add_terms_of(terms, i as nat),
        decreases v.len() - i,
    {
        push_add_terms(out, &v[i]);
        i += 1;
        assert(terms_of(out@) =~= terms_of(old(out)@) + add_terms_of(terms, i as nat));
    }
}

fn push_operation_add_terms(out: &mut Vec<Sym>, o: &Operation)
    ensures
        terms_of(final(out)@) == terms_of(old(out)@) + add_terms(o@),
    decreases o, 0nat,
{
    match o {
        Operation::Add(a, b) => {
            push_add_terms(out, a);
            push_add_terms(out, b);
            assert(terms_of(out@) =~= terms_of(old(out)@) + add_terms(o@));
        },
        Operation::Sum(v) => {
            push_add_terms_of(out, v);
        },
        _ => {
            out.push(Sym::Operation(Box::new(o.duplicate())));
            assert(terms_of(out@) =~= terms_of(old(out)@) + add_terms(o@));
        },
    }
}

fn push_mul_terms(out: &mut Vec<Sym>, s: &Sym)
    ensures
        terms_of(final(out)@) == terms_of(old(out)@) + mul_terms(s@),
    decreases s, 0nat,
{
    match s {
        Sym::Operation(o) => {
            push_operation_mul_terms(out, o);
        },
        _ => {
            out.push(s.duplicate());
            assert(terms_of(out@) =~= terms_of(old(out)@) + mul_terms(s@));
        },
    }
}

fn push_mul_terms_of(out: &mut Vec<Sym>, v: &Vec<Sym>)
    ensures
        terms_of(final(out)@) == terms_of(old(out)@) + mul_terms_of(terms_of(v@), v@.len()),
    decreases v, 1nat,
{
    let ghost terms = terms_of(v@);
    let mut i: usize = 0;
    assert(terms_of(out@) =~= terms_of(old(out)@) + mul_terms_of(terms, 0));
    while i < v.len()
        invariant
            i <= v.len(),
            terms == terms_of(v@),
            terms_of(out@) == terms_of(old(out)@) + mul_terms_of(terms, i as nat),
        decreases v.len() - i,
    {
        push_mul_terms(out, &v[i]);
        i += 1;
        assert(terms_of(out@) =~= terms_of(old(out)@) + mul_terms_of(terms, i as nat));
    }
}

fn push_operation_mul_terms(out: &mut Vec<Sym>, o: &Operation)
    ensures
        terms_of(final(out)@) == terms_of(old(out)@) + mul_terms(o@),
    decreases o, 0nat,
{
    match o {
        Operation::Mul(a, b) => {
            push_mul_terms(out, a);
            push_mul_terms(out, b);
            assert(terms_of(out@) =~= terms_of(old(out)@) + mul_terms(o@));
        },
        Operation::Prod(v) => {
            push_mul_terms_of(out, v);
        },
        _ => {
            out.push(Sym::Operation(Box::new(o.duplicate())));
            assert(terms_of(out@) =~= terms_of(old(out)@) + mul_terms(o@));
        },
    }
}

/// The terms of a nest of additions, each copied.
pub fn collect_add_terms(o: &Operation) -> (r: Vec<Sym>)
    ensures
        terms_of(r@) == add_terms(o@),
{
    let mut out: Vec<Sym> = Vec::new();
    push_operation_add_terms(&mut out, o);
    assert(terms_of(out@) =~= add_terms(o@));
    out
}

/// The factors of a nest of multiplications, each copied.
pub fn collect_mul_terms(o: &Operation) -> (r: Vec<Sym>)
    ensures
        terms_of(r@) == mul_terms(o@),
{
    let mut out: Vec<Sym> = Vec::new();
    push_operation_mul_terms(&mut out, o);
    assert(terms_of(out@) =~= mul_terms(o@));
    out
}

/// Whether an expression is an addition or a sum.
pub fn is_sum_node(s: &Sym) -> (r: bool)
    ensures
        r == is_additive(s@),
{
    match s {
        Sym::Operation(o) => match &**o {
            Operation::Add(_, _) => true,
            Operation::Sum(_) => true,
            _ => false,
        },
        _ => false,
    }
}

/// Whether an expression is a multiplication or a product.
pub fn is_product_node(s: &Sym) -> (r: bool)
    ensures
        r == is_multiplicative(s@),
{
    match s {
        Sym::Operation(o) => match &**o {
            Operation::Mul(_, _) => true,
            Operation::Prod(_) => true,
            _ => false,
        },
        _ => false,
    }
}

/// Turns a nest of additions into one sum in canonical order: a sum, or an
/// addition of two additions or sums. Says whether it found such a nest;
/// any other expression it leaves as it is.
pub fn to_sum(op: &mut Operation) -> (r: bool)
    ensures
        r == nests_sum(old(op)@),
        final(op)@ == (if r {
            canonical(old(op)@)
        } else {
            old(op)@
        }),
{
    let nest = match &*op {
        Operation::Sum(_) => true,
        Operation::Add(a, b) => is_sum_node(a) && is_sum_node(b),
        _ => false,
    };
    if nest {
        let terms = collect_add_terms(op);
        *op = Operation::Sum(sort_syms(terms));
    }
    nest
}

/// Turns a nest of multiplications into one product in canonical order: a
/// product, or a multiplication of two multiplications or products. Says
/// whether it found such a nest; any other expression, a multiplication
/// with a leaf among its operands too, it leaves as it is.
pub fn to_prod(op: &mut Operation) -> (r: bool)
    ensures
        r == nests_product(old(op)@),
        final(op)@ == (if r {
            canonical(old(op)@)
        } else {
            old(op)@
        }),
{
    let nest = match &*op {
        Operation::Prod(_) => true,
        Operation::Mul(a, b) => is_product_node(a) && is_product_node(b),
        _ => false,
    };
    if nest {
        let terms = collect_mul_terms(op);
        *op = Operation::Prod(sort_syms(terms));
    }
    nest
}

fn ordered_operation(o: Operation) -> (r: Operation)
    ensures
        r@ == ordered(o@),
{
    match o {
        Operation::Add(a, b) => {
            if precedes(&a, &b) {
                Operation::Add(a, b)
            } else {
                Operation::Add(b, a)
            }
        },
        Operation::Mul(a, b) => {
            if precedes(&a, &b) {
                Operation::Mul(a, b)
            } else {
                Operation::Mul(b, a)
            }
        },
        Operation::Sum(v) => Operation::Sum(sort_syms(v)),
        Operation::Prod(v) => Operation::Prod(sort_syms(v)),
        other => other,
    }
}

/// Puts the operands of a sum, product, addition or multiplication in
/// canonical order.
pub fn sort(op: &mut Operation)
    ensures
        final(op)@ == ordered(old(op)@),
{
    let mut taken = Operation::Nop(Sym::Number(0));
    core::mem::swap(op, &mut taken);
    *op = ordered_operation(taken);
}

/// Puts the two operands of an addition in canonical order.
pub fn sort_add(op: &mut Operation)
    ensures
        final(op)@ == (if old(op)@ is Add {
            ordered(old(op)@)
        } else {
            old(op)@
        }),
{
    let applies = match &*op {
        Operation::Add(_, _) => true,
        _ => false,
    };
    if applies {
        sort(op);
    }
}

/// Puts the two operands of a multiplication in canonical order.
pub fn sort_mul(op: &mut Operation)
    ensures
        final(op)@ == (if old(op)@ is Mul {
            ordered(old(op)@)
        } else {
            old(op)@
        }),
{
    let applies = match &*op {
        Operation::Mul(_, _) => true,
        _ => false,
    };
    if applies {
        sort(op);
    }
}

/// Brings a compound expression into canonical form.
pub fn canonicalize_operation(op: &mut Operation)
    ensures
        final(op)@ == canonical(old(op)@),
{
    if !to_sum(op) {
        if !to_prod(op) {
            sort(op);
        }
    }
}

/// The canonical form of an expression.
pub fn canonicalize(s: Sym) -> (r: Sym)
    ensures
        r@ == canonical(s@),
{
    match s {
        Sym::Operation(o) => {
            let mut op = *o;
            canonicalize_operation(&mut op);
            Sym::Operation(Box::new(op))
        },
        other => other,
    }
}

/// Merges a compound expression with the operands of its kind, and orders
/// the operands.
pub fn merge_operation(op: &mut Operation)
    ensures
        final(op)@ == merged(old(op)@),
{
    let sum = match &*op {
        Operation::Sum(_) => true,
        Operation::Add(a, b) => is_sum_node(a) || is_sum_node(b),
        _ => false,
    };
    let product = match &*op {
        Operation::Prod(_) => true,
        Operation::Mul(a, b) => is_product_node(a) || is_product_node(b),
        _ => false,
    };
    if sum {
        let terms = collect_add_terms(op);
        *op = Operation::Sum(sort_syms(terms));
    } else if product {
        let terms = collect_mul_terms(op);
        *op = Operation::Prod(sort_syms(terms));
    } else {
        sort(op);
    }
}

/// An expression merged with the operands of its kind, its operands in
/// order.
pub fn merge(s: Sym) -> (r: Sym)
    ensures
        r@ == merged(s@),
{
    match s {
        Sym::Operation(o) => {
            let mut op = *o;
            merge_operation(&mut op);
            Sym::Operation(Box::new(op))
        },
        other => other,
    }
}

/// Merging a merged expression changes nothing.
pub proof fn lemma_merged_idempotent(t: Term)
    ensures
        merged(merged(t)) == merged(t),
{
    lemma_term_order_total();
    if joins_sum(t) {
        let s = add_terms(t);
        let r = sorted(s);
        lemma_add_terms_plain(t);
        lemma_none_is_sorted(s, additive());
        lemma_add_terms_of_flat(r, r.len());
        assert(r.take(r.len() as int) =~= r);
        lemma_sorted_twice(s);
    } else if joins_product(t) {
        let s = mul_terms(t);
        let r = sorted(s);
        lemma_mul_terms_plain(t);
        lemma_none_is_sorted(s, multiplicative());
        lemma_mul_terms_of_flat(r, r.len());
        assert(r.take(r.len() as int) =~= r);
        lemma_sorted_twice(s);
    } else {
        match t {
            Term::Add(a, b) => {
                assert(term_order()(*a, *b) || term_order()(*b, *a));
            },
            Term::Mul(a, b) => {
                assert(term_order()(*a, *b) || term_order()(*b, *a));
            },
            _ => {},
        }
    }
}

} // verus!
