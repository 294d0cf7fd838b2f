//! Arithmetic on expressions.
//!
//! Each operator builds the smallest expression it knows for its operands:
//! two literals become one, an operand that changes nothing is left out, and
//! signs move to the outside of a product or quotient.
use crate::literal::{
    is_negative_literal, is_zero_literal, lit_difference, lit_is_negative, lit_is_zero,
    lit_negated, lit_product, lit_quotient, lit_sum, literal_difference, literal_product,
    literal_quotient, literal_sum, negate_literal, NEG_ONE, NEG_ZERO, ONE, POS_ZERO, TWO,
};
use crate::syms::{Constant, Operation, Sym, Term};
use vstd::prelude::*;

verus! {

/// A literal zero, of either sign.
pub open spec fn is_zero_number(t: Term) -> bool {
    t matches Term::Number(b) && lit_is_zero(b)
}

/// The literal one.
pub open spec fn is_one(t: Term) -> bool {
    t == Term::Number(ONE)
}

/// The negation of an expression: a literal changes its sign, a negation
/// loses it, anything else is wrapped in one.
pub open spec fn negated(t: Term) -> Term {
    match t {
        Term::Number(b) => Term::Number(lit_negated(b)),
        Term::UnSub(s) => *s,
        _ => Term::UnSub(Box::new(t)),
    }
}

/// Whether an expression carries a sign: a literal below zero, or a
/// negation.
pub open spec fn is_negative(t: Term) -> bool {
    match t {
        Term::Number(b) => lit_is_negative(b),
        Term::UnSub(_) => true,
        _ => false,
    }
}

/// An expression without the sign it carries.
pub open spec fn unsigned(t: Term) -> Term {
    if is_negative(t) {
        negated(t)
    } else {
        t
    }
}

/// The product of two expressions that carry no sign.
pub open spec fn unsigned_product(a: Term, b: Term) -> Term {
    if is_one(a) {
        b
    } else if is_one(b) {
        a
    } else {
        Term::Mul(Box::new(a), Box::new(b))
    }
}

/// What `a * b` builds. The rules apply in this order: one leaves the
/// other operand; zero gives zero; two literals become one; otherwise the
/// signs go to the front of a multiplication of the unsigned operands.
pub open spec fn product_of(a: Term, b: Term) -> Term {
    if is_one(a) {
        b
    } else if is_one(b) {
        a
    } else if is_zero_number(a) || is_zero_number(b) {
        Term::Number(POS_ZERO)
    } else if a is Number && b is Number {
        Term::Number(lit_product(a->Number_0, b->Number_0))
    } else if is_negative(a) != is_negative(b) {
        negated(unsigned_product(unsigned(a), unsigned(b)))
    } else {
        unsigned_product(unsigned(a), unsigned(b))
    }
}

/// What `a + b` builds.
pub open spec fn sum_of(a: Term, b: Term) -> Term {
    if a is Number && b is Number {
        Term::Number(lit_sum(a->Number_0, b->Number_0))
    } else if is_zero_number(a) {
        b
    } else if is_zero_number(b) {
        a
    } else if a == b {
        product_of(Term::Number(TWO), a)
    } else if a == negated(b) || b == negated(a) {
        Term::Number(POS_ZERO)
    } else {
        Term::Add(Box::new(a), Box::new(b))
    }
}

/// Whether `a + b` is simpler than an addition of `a` and `b`.
pub open spec fn sum_folds(a: Term, b: Term) -> bool {
    (a is Number && b is Number) || is_zero_number(a) || is_zero_number(b) || a == b || a
        == negated(b) || b == negated(a)
}

/// Whether `a - b` is simpler than a subtraction of `b` from `a`.
pub open spec fn difference_folds(a: Term, b: Term) -> bool {
    (a is Number && b is Number) || is_zero_number(a) || is_zero_number(b) || a == b
}

/// What `a - b` builds.
pub open spec fn difference_of(a: Term, b: Term) -> Term {
    if a is Number && b is Number {
        Term::Number(lit_difference(a->Number_0, b->Number_0))
    } else if is_zero_number(b) {
        a
    } else if is_zero_number(a) {
        negated(b)
    } else if a == b {
        Term::Number(NEG_ZERO)
    } else {
        Term::Sub(Box::new(a), Box::new(b))
    }
}

/// Whether an expression is a literal below zero.
pub open spec fn is_negative_number(t: Term) -> bool {
    t is Number && is_negative(t)
}

/// What `a / b` builds. The rules apply in this order: a divisor of one
/// leaves the dividend; a dividend of zero gives zero; a divisor that is a
/// literal below zero changes its sign, and the dividend with it; then two
/// literals become one, and anything else a division.
pub open spec fn quotient_of(a: Term, b: Term) -> Term {
    if is_one(b) {
        a
    } else if is_zero_number(a) {
        Term::Number(POS_ZERO)
    } else {
        let n = if is_negative_number(b) {
            negated(a)
        } else {
            a
        };
        let d = if is_negative_number(b) {
            negated(b)
        } else {
            b
        };
        if n is Number && d is Number {
            Term::Number(lit_quotient(n->Number_0, d->Number_0))
        } else {
            Term::Div(Box::new(n), Box::new(d))
        }
    }
}

/// What `a % b` builds.
pub open spec fn remainder_of(a: Term, b: Term) -> Term {
    Term::Rem(Box::new(a), Box::new(b))
}

/// The constant pi.
pub open spec fn pi_term() -> Term {
    Term::Constant(Constant::Pi)
}

/// Half of pi.
pub open spec fn half_pi() -> Term {
    Term::Div(Box::new(pi_term()), Box::new(Term::Number(TWO)))
}

/// Half of pi with a sign, in either of its two forms.
pub open spec fn is_minus_half_pi(t: Term) -> bool {
    t == Term::UnSub(Box::new(half_pi())) || t == Term::Div(
        Box::new(Term::UnSub(Box::new(pi_term()))),
        Box::new(Term::Number(TWO)),
    )
}

/// Pi with a sign.
pub open spec fn minus_pi() -> Term {
    Term::UnSub(Box::new(pi_term()))
}

/// The sine of an expression: exact at zero, at pi and at half of pi, of
/// either sign; a sine node elsewhere.
pub open spec fn sine_of(t: Term) -> Term {
    if is_zero_number(t) {
        t
    } else if t == pi_term() || t == minus_pi() {
        Term::Number(POS_ZERO)
    } else if t == half_pi() {
        Term::Number(ONE)
    } else if is_minus_half_pi(t) {
        Term::Number(NEG_ONE)
    } else {
        Term::Sin(Box::new(t))
    }
}

/// The cosine of an expression: exact at zero, at pi and at half of pi, of
/// either sign; a cosine node elsewhere.
pub open spec fn cosine_of(t: Term) -> Term {
    if is_zero_number(t) {
        Term::Number(ONE)
    } else if t == pi_term() || t == minus_pi() {
        Term::Number(NEG_ONE)
    } else if t == half_pi() || is_minus_half_pi(t) {
        Term::Number(POS_ZERO)
    } else {
        Term::Cos(Box::new(t))
    }
}

/// Negating twice gives the expression back, unless it is the negation of a
/// literal or of a negation, which no operator here builds.
pub proof fn lemma_negated_twice(t: Term)
    requires
        t matches Term::UnSub(s) ==> !(*s is Number) && !(*s is UnSub),
    ensures
        negated(negated(t)) == t,
{
    if let Term::Number(b) = t {
        crate::literal::lemma_negated_twice(b);
    }
}

/// A sum of two expressions does not depend on their order, up to the order
/// of the operands of the addition it may build.
pub proof fn lemma_sum_commutes(a: Term, b: Term)
    ensures
        sum_of(a, b) == sum_of(b, a) || (sum_of(a, b) == Term::Add(Box::new(a), Box::new(b))
            && sum_of(b, a) == Term::Add(Box::new(b), Box::new(a))),
{
    if a is Number && b is Number {
        crate::literal::lemma_sum_commutes(a->Number_0, b->Number_0);
    }
}

/// The sign that an expression takes under negation, and takes back.
pub trait SignInversion: Sized {
    /// Whether `r` is the negation of `self`.
    spec fn inverts_to(&self, r: &Self) -> bool;

    /// Whether `self` carries a sign.
    spec fn carries_sign(&self) -> bool;

    /// The negation of this value.
    fn sing_inversion(self) -> (r: Self)
        ensures
            self.inverts_to(&r),
    ;

    /// Whether this value carries a sign.
    fn negative(&self) -> (r: bool)
        ensures
            r == self.carries_sign(),
    ;
}

impl SignInversion for Sym {
    open spec fn inverts_to(&self, r: &Self) -> bool {
        r@ == negated(self@)
    }

    open spec fn carries_sign(&self) -> bool {
        is_negative(self@)
    }

    fn sing_inversion(self) -> (r: Self) {
        match self {
            Sym::Number(b) => Sym::Number(negate_literal(b)),
            Sym::Operation(o) => match *o {
                Operation::UnSub(s) => s,
                other => Sym::Operation(
                    Box::new(Operation::UnSub(Sym::Operation(Box::new(other)))),
                ),
            },
            other => Sym::Operation(Box::new(Operation::UnSub(other))),
        }
    }

    fn negative(&self) -> (r: bool) {
        match self {
            Sym::Number(b) => is_negative_literal(*b),
            Sym::Operation(o) => match **o {
                Operation::UnSub(_) => true,
                _ => false,
            },
            _ => false,
        }
    }
}

/// Whether `a` is the negation of `b`.
pub fn is_negation_of(a: &Sym, b: &Sym) -> (r: bool)
    ensures
        r == (a@ == negated(b@)),
{
    match b {
        Sym::Number(n) => match a {
            Sym::Number(m) => *m == negate_literal(*n),
            _ => false,
        },
        Sym::Operation(o) => match &**o {
            Operation::UnSub(s) => a.eq_internal(s),
            _ => match a {
                Sym::Operation(p) => match &**p {
                    Operation::UnSub(x) => x.eq_internal(b),
                    _ => false,
                },
                _ => false,
            },
        },
        _ => match a {
            Sym::Operation(p) => match &**p {
                Operation::UnSub(x) => x.eq_internal(b),
                _ => false,
            },
            _ => false,
        },
    }
}

impl Sym {
    /// The literal zero.
    pub fn zero() -> (r: Sym)
        ensures
            r@ == Term::Number(POS_ZERO),
    {
        Sym::Number(POS_ZERO)
    }

    /// The literal one.
    pub fn one() -> (r: Sym)
        ensures
            r@ == Term::Number(ONE),
    {
        Sym::Number(ONE)
    }

    /// The constant pi.
    pub fn pi() -> (r: Sym)
        ensures
            r@ == pi_term(),
    {
        Sym::Constant(Constant::Pi)
    }

    /// Whether this is a literal zero.
    pub fn is_zero(&self) -> (r: bool)
        ensures
            r == is_zero_number(self@),
    {
        match self {
            Sym::Number(b) => is_zero_literal(*b),
            _ => false,
        }
    }

    /// Whether this is the literal one.
    pub fn is_one(&self) -> (r: bool)
        ensures
            r == is_one(self@),
    {
        match self {
            Sym::Number(b) => *b == ONE,
            _ => false,
        }
    }

    /// Whether this is a literal.
    pub fn is_number(&self) -> (r: bool)
        ensures
            r == (self@ is Number),
    {
        match self {
            Sym::Number(_) => true,
            _ => false,
        }
    }

    /// This expression without the sign it carries.
    pub fn unsigned(self) -> (r: Sym)
        ensures
            r@ == unsigned(self@),
    {
        if self.negative() {
            self.sing_inversion()
        } else {
            self
        }
    }

    fn unsigned_product(self, rhs: Sym) -> (r: Sym)
        ensures
            r@ == unsigned_product(self@, rhs@),
    {
        if self.is_one() {
            rhs
        } else if rhs.is_one() {
            self
        } else {
            Sym::Operation(Box::new(Operation::Mul(self, rhs)))
        }
    }

    /// Whether `self + rhs` is simpler than an addition of the two.
    pub fn sum_folds(&self, rhs: &Sym) -> (r: bool)
        ensures
            r == sum_folds(self@, rhs@),
    {
        (self.is_number() && rhs.is_number()) || self.is_zero() || rhs.is_zero()
            || self.eq_internal(rhs) || is_negation_of(self, rhs) || is_negation_of(rhs, self)
    }

    /// Whether `self - rhs` is simpler than a subtraction of the two.
    pub fn difference_folds(&self, rhs: &Sym) -> (r: bool)
        ensures
            r == difference_folds(self@, rhs@),
    {
        (self.is_number() && rhs.is_number()) || self.is_zero() || rhs.is_zero()
            || self.eq_internal(rhs)
    }

    /// `self * rhs`.
    pub fn mul(self, rhs: Sym) -> (r: Sym)
        ensures
            r@ == product_of(self@, rhs@),
    {
        if self.is_one() {
            return rhs;
        }
        if rhs.is_one() {
            return self;
        }
        if self.is_zero() || rhs.is_zero() {
            return Sym::Number(POS_ZERO);
        }
        if let Sym::Number(x) = &self {
            if let Sym::Number(y) = &rhs {
                return Sym::Number(literal_product(*x, *y));
            }
        }
        let flip = self.negative() != rhs.negative();
        let core = self.unsigned().unsigned_product(rhs.unsigned());
        if flip {
            core.sing_inversion()
        } else {
            core
        }
    }

    /// `self + rhs`.
    pub fn add(self, rhs: Sym) -> (r: Sym)
        ensures
            r@ == sum_of(self@, rhs@),
    {
        if let Sym::Number(x) = &self {
            if let Sym::Number(y) = &rhs {
                return Sym::Number(literal_sum(*x, *y));
            }
        }
        if self.is_zero() {
            return rhs;
        }
        if rhs.is_zero() {
            return self;
        }
        if self.eq_internal(&rhs) {
            return Sym::Number(TWO).mul(self);
        }
        if is_negation_of(&self, &rhs) || is_negation_of(&rhs, &self) {
            return Sym::Number(POS_ZERO);
        }
        Sym::Operation(Box::new(Operation::Add(self, rhs)))
    }

    /// `self - rhs`.
    pub fn sub(self, rhs: Sym) -> (r: Sym)
        ensures
            r@ == difference_of(self@, rhs@),
    {
        if let Sym::Number(x) = &self {
            if let Sym::Number(y) = &rhs {
                return Sym::Number(literal_difference(*x, *y));
            }
        }
        if rhs.is_zero() {
            return self;
        }
        if self.is_zero() {
            return rhs.sing_inversion();
        }
        if self.eq_internal(&rhs) {
            return Sym::Number(NEG_ZERO);
        }
        Sym::Operation(Box::new(Operation::Sub(self, rhs)))
    }

    /// `self / rhs`.
    pub fn div(self, rhs: Sym) -> (r: Sym)
        ensures
            r@ == quotient_of(self@, rhs@),
    {
        if rhs.is_one() {
            return self;
        }
        if self.is_zero() {
            return Sym::Number(POS_ZERO);
        }
        let flip = match &rhs {
            Sym::Number(y) => is_negative_literal(*y),
            _ => false,
        };
        let n = if flip {
            self.sing_inversion()
        } else {
            self
        };
        let d = if flip {
            rhs.sing_inversion()
        } else {
            rhs
        };
        if let Sym::Number(x) = &n {
            if let Sym::Number(y) = &d {
                return Sym::Number(literal_quotient(*x, *y));
            }
        }
        Sym::Operation(Box::new(Operation::Div(n, d)))
    }

    /// `self % rhs`.
    pub fn rem(self, rhs: Sym) -> (r: Sym)
        ensures
            r@ == remainder_of(self@, rhs@),
    {
        Sym::Operation(Box::new(Operation::Rem(self, rhs)))
    }

    /// The square root of an expression.
    pub fn sqrt(num: Sym) -> (r: Sym)
        ensures
            r@ == Term::Sqrt(Box::new(num@)),
    {
        Sym::Operation(Box::new(Operation::Sqrt(num)))
    }

    fn is_pi(&self) -> (r: bool)
        ensures
            r == (self@ == pi_term()),
    {
        match self {
            Sym::Constant(_) => true,
            _ => false,
        }
    }

    fn is_minus_pi(&self) -> (r: bool)
        ensures
            r == (self@ == minus_pi()),
    {
        match self {
            Sym::Operation(o) => match &**o {
                Operation::UnSub(s) => s.is_pi(),
                _ => false,
            },
            _ => false,
        }
    }

    fn is_two(&self) -> (r: bool)
        ensures
            r == (self@ == Term::Number(TWO)),
    {
        match self {
            Sym::Number(b) => *b == TWO,
            _ => false,
        }
    }

    fn is_half_pi(&self) -> (r: bool)
        ensures
            r == (self@ == half_pi()),
    {
        match self {
            Sym::Operation(o) => match &**o {
                Operation::Div(n, d) => n.is_pi() && d.is_two(),
                _ => false,
            },
            _ => false,
        }
    }

    fn is_minus_half_pi(&self) -> (r: bool)
        ensures
            r == is_minus_half_pi(self@),
    {
        match self {
            Sym::Operation(o) => match &**o {
                Operation::UnSub(s) => s.is_half_pi(),
                Operation::Div(n, d) => n.is_minus_pi() && d.is_two(),
                _ => false,
            },
            _ => false,
        }
    }

    /// The sine of an expression.
    pub fn sine(self) -> (r: Sym)
        ensures
            r@ == sine_of(self@),
    {
        if self.is_zero() {
            self
        } else if self.is_pi() || self.is_minus_pi() {
            Sym::Number(POS_ZERO)
        } else if self.is_half_pi() {
            Sym::Number(ONE)
        } else if self.is_minus_half_pi() {
            Sym::Number(NEG_ONE)
        } else {
            Sym::Operation(Box::new(Operation::Sin(self)))
        }
    }

    /// The cosine of an expression.
    pub fn cosine(self) -> (r: Sym)
        ensures
            r@ == cosine_of(self@),
    {
        if self.is_zero() {
            Sym::Number(ONE)
        } else if self.is_pi() || self.is_minus_pi() {
            Sym::Number(NEG_ONE)
        } else if self.is_half_pi() || self.is_minus_half_pi() {
            Sym::Number(POS_ZERO)
        } else {
            Sym::Operation(Box::new(Operation::Cos(self)))
        }
    }
}

impl Sym {
    /// Replaces this expression by `self + rhs`.
    pub fn add_assign(&mut self, rhs: Sym)
        ensures
            final(self)@ == sum_of(old(self)@, rhs@),
    {
        let mut taken = Sym::Number(POS_ZERO);
        core::mem::swap(self, &mut taken);
        *self = taken.add(rhs);
    }

    /// Replaces this expression by `self - rhs`.
    pub fn sub_assign(&mut self, rhs: Sym)
        ensures
            final(self)@ == difference_of(old(self)@, rhs@),
    {
        let mut taken = Sym::Number(POS_ZERO);
        core::mem::swap(self, &mut taken);
        *self = taken.sub(rhs);
    }

    /// Replaces this expression by `self * rhs`.
    pub fn mul_assign(&mut self, rhs: Sym)
        ensures
            final(self)@ == product_of(old(self)@, rhs@),
    {
        let mut taken = Sym::Number(POS_ZERO);
        core::mem::swap(self, &mut taken);
        *self = taken.mul(rhs);
    }

    /// Replaces this expression by `self / rhs`.
    pub fn div_assign(&mut self, rhs: Sym)
        ensures
            final(self)@ == quotient_of(old(self)@, rhs@),
    {
        let mut taken = Sym::Number(POS_ZERO);
        core::mem::swap(self, &mut taken);
        *self = taken.div(rhs);
    }

    /// Replaces this expression by `self % rhs`.
    pub fn rem_assign(&mut self, rhs: Sym)
        ensures
            final(self)@ == remainder_of(old(self)@, rhs@),
    {
        let mut taken = Sym::Number(POS_ZERO);
        core::mem::swap(self, &mut taken);
        *self = taken.rem(rhs);
    }

    /// Replaces this expression by the literal zero.
    pub fn set_zero(&mut self)
        ensures
            final(self)@ == Term::Number(POS_ZERO),
    {
        *self = Sym::Number(POS_ZERO);
    }
}

impl Default for Sym {
    fn default() -> (r: Self)
        ensures
            r@ == Term::Number(POS_ZERO),
    {
        Sym::Number(POS_ZERO)
    }
}

impl From<&'static str> for Sym {
    fn from(name: &'static str) -> (r: Self) {
        Sym::Identifier(name)
    }
}

impl vstd::std_specs::convert::FromSpecImpl<&'static str> for Sym {
    open spec fn obeys_from_spec() -> bool {
        true
    }

    open spec fn from_spec(name: &'static str) -> Self {
        Sym::Identifier(name)
    }
}

impl From<Constant> for Sym {
    fn from(constant: Constant) -> (r: Self) {
        Sym::Constant(constant)
    }
}

impl vstd::std_specs::convert::FromSpecImpl<Constant> for Sym {
    open spec fn obeys_from_spec() -> bool {
        true
    }

    open spec fn from_spec(constant: Constant) -> Self {
        Sym::Constant(constant)
    }
}

/// Negating a negation gives what it negated: negations never nest.
pub proof fn lemma_negation_never_nests(t: Term)
    ensures
        negated(Term::UnSub(Box::new(t))) == t,
        !(t is UnSub) ==> !(negated(t) matches Term::UnSub(s) && *s is UnSub),
{
}

/// An operand that changes nothing is left out: one in a product or a
/// quotient, of every expression; zero in a sum or a difference, of every
/// expression but two literals: the one that is no number, and the negative
/// zero, which plus zero is the positive zero.
pub proof fn lemma_identities(a: Term)
    ensures
        product_of(a, Term::Number(ONE)) == a,
        product_of(Term::Number(ONE), a) == a,
        quotient_of(a, Term::Number(ONE)) == a,
        !(a matches Term::Number(b) && (crate::literal::lit_is_nan(b) || b == NEG_ZERO)) ==> {
            &&& sum_of(a, Term::Number(POS_ZERO)) == a
            &&& sum_of(Term::Number(POS_ZERO), a) == a
            &&& difference_of(a, Term::Number(POS_ZERO)) == a
        },
{
    if let Term::Number(b) = a {
        if !crate::literal::lit_is_nan(b) && b != NEG_ZERO {
            crate::literal::lemma_sum_with_zero(b);
        }
    }
}

/// Zero times any expression is zero, in either order, and before two
/// literals are multiplied: infinity times zero is zero here. Zero divided
/// by any expression is zero.
pub proof fn lemma_zero(a: Term)
    ensures
        product_of(a, Term::Number(POS_ZERO)) == Term::Number(POS_ZERO),
        product_of(Term::Number(POS_ZERO), a) == Term::Number(POS_ZERO),
        quotient_of(Term::Number(POS_ZERO), a) == Term::Number(POS_ZERO),
        !(a is Number) ==> difference_of(Term::Number(POS_ZERO), a) == negated(a),
{
}

/// A product with a zero literal among its operands is a zero literal.
pub proof fn lemma_product_with_zero(a: Term, b: Term)
    requires
        is_zero_number(a) || is_zero_number(b),
    ensures
        is_zero_number(product_of(a, b)),
{
}

/// A division by a literal below zero is the division of the negated
/// dividend by the negated literal: there is no rule of its own for a
/// divisor of minus one. (A dividend that is zero, or a literal, or the
/// negation of a literal, is folded.)
pub proof fn lemma_quotient_by_negative(a: Term, b: Term)
    requires
        is_negative_number(b),
        !(a is Number),
        !(a matches Term::UnSub(s) && *s is Number),
    ensures
        quotient_of(a, b) == Term::Div(Box::new(negated(a)), Box::new(negated(b))),
        !is_negative_number(negated(b)),
{
}

/// The division that is built has no literal below zero as its divisor.
pub proof fn lemma_quotient_divisor(a: Term, b: Term)
    requires
        !is_one(b),
    ensures
        quotient_of(a, b) matches Term::Div(n, d) ==> !is_negative_number(*d),
{
}

/// An expression minus itself is zero, written as the negated zero.
pub proof fn lemma_self_difference(a: Term)
    requires
        !(a is Number),
    ensures
        difference_of(a, a) == Term::Number(NEG_ZERO),
{
}

/// A symbol plus its negation is zero, in either order.
pub proof fn lemma_symbol_and_negation(name: Seq<char>)
    ensures
        sum_of(Term::Identifier(name), negated(Term::Identifier(name))) == Term::Number(POS_ZERO),
        sum_of(negated(Term::Identifier(name)), Term::Identifier(name)) == Term::Number(POS_ZERO),
        negated(negated(Term::Identifier(name))) == Term::Identifier(name),
{
}

/// The sine and the cosine are exact at zero, at pi and at half of pi.
pub proof fn lemma_exact_angles()
    ensures
        sine_of(Term::Number(POS_ZERO)) == Term::Number(POS_ZERO),
        cosine_of(Term::Number(POS_ZERO)) == Term::Number(ONE),
        sine_of(pi_term()) == Term::Number(POS_ZERO),
        cosine_of(pi_term()) == Term::Number(NEG_ONE),
        sine_of(half_pi()) == Term::Number(ONE),
        cosine_of(half_pi()) == Term::Number(POS_ZERO),
        sine_of(minus_pi()) == Term::Number(POS_ZERO),
        cosine_of(minus_pi()) == Term::Number(NEG_ONE),
{
}

} // verus!
