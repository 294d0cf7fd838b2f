//! The set of common terms.
//!
//! A small collection of expressions, kept in the order in which they came
//! in, and never the literal one. Putting an expression in keeps each member
//! once; combining two collections keeps what both hold, each as often as
//! it occurs. Members are found through sixteen buckets, chosen by a coarse
//! hash of the member.
use crate::arith::is_one;
use crate::display::{push_text, text};
use crate::syms::{terms_of, Sym, Term};
use vstd::prelude::*;

verus! {

/// The number of buckets.
pub const BUCKETS: usize = 16;

/// The weight of bit `i` of a character, for the first four characters of a
/// text; nothing beyond.
pub open spec fn letter_hash(s: Seq<char>, i: int) -> int {
    if 0 <= i < s.len() {
        let c = s[i] as u32 as int;
        if i == 0 {
            c % 2
        } else if i == 1 {
            (c / 2) % 2 * 2
        } else if i == 2 {
            (c / 4) % 2 * 4
        } else if i == 3 {
            (c / 8) % 2 * 8
        } else {
            0
        }
    } else {
        0
    }
}

/// The bucket of an expression: for a literal, four of the leading bits of
/// its pattern; for any other, one bit of each of the first four characters
/// of its text.
pub open spec fn term_hash(t: Term) -> int {
    match t {
        Term::Number(b) => (b as int / 0x100_0000) % 16,
        _ => letter_hash(text(t), 0) + letter_hash(text(t), 1) + letter_hash(text(t), 2)
            + letter_hash(text(t), 3),
    }
}

/// A set with one more member, unless it is the literal one or a member
/// already.
pub open spec fn put(s: Seq<Term>, x: Term) -> Seq<Term> {
    if is_one(x) || s.contains(x) {
        s
    } else {
        s.push(x)
    }
}

/// Of the first `n` of some expressions, those whose membership in `other`
/// is `present`, as a set.
pub open spec fn picked(items: Seq<Term>, other: Seq<Term>, present: bool, n: nat) -> Seq<
    Term,
>
    decreases n,
{
    if n == 0 || n > items.len() {
        Seq::empty()
    } else if other.contains(items[n - 1]) == present {
        put(picked(items, other, present, (n - 1) as nat), items[n - 1])
    } else {
        picked(items, other, present, (n - 1) as nat)
    }
}

/// The members of both collections together, each as often as it occurs:
/// those of `a`, then those of `b`.
pub open spec fn combined(a: Seq<Term>, b: Seq<Term>) -> Seq<Term> {
    a + b
}

/// The members of `a` that are members of `b` too.
pub open spec fn shared(a: Seq<Term>, b: Seq<Term>) -> Seq<Term> {
    picked(a, b, true, a.len())
}

/// The members of `a` that are no members of `b`.
pub open spec fn remaining(a: Seq<Term>, b: Seq<Term>) -> Seq<Term> {
    picked(a, b, false, a.len())
}

/// No expression is a member twice.
pub open spec fn no_member_twice(s: Seq<Term>) -> bool {
    forall|i: int, j: int| 0 <= i < j < s.len() ==> s[i] != s[j]
}

/// The literal one is no member.
pub open spec fn holds_no_one(s: Seq<Term>) -> bool {
    forall|i: int| 0 <= i < s.len() ==> !is_one(#[trigger] s[i])
}

/// What a collection holds after an expression is put into it, and that it
/// still holds no member twice and not the literal one.
pub proof fn lemma_put(s: Seq<Term>, x: Term)
    ensures
        forall|y: Term| #[trigger] put(s, x).contains(y) <==> s.contains(y) || (y == x && !is_one(x)),
        no_member_twice(s) ==> no_member_twice(put(s, x)),
        holds_no_one(s) ==> holds_no_one(put(s, x)),
{
    let r = put(s, x);
    assert forall|y: Term| #[trigger] r.contains(y) <==> s.contains(y) || (y == x && !is_one(
        x,
    )) by {
        if is_one(x) || s.contains(x) {
        } else {
            if r.contains(y) {
                let i = choose|i: int| 0 <= i < r.len() && r[i] == y;
                if i < s.len() {
                    assert(s[i] == y);
                }
            }
            if s.contains(y) {
                let i = choose|i: int| 0 <= i < s.len() && s[i] == y;
                assert(r[i] == y);
            }
            assert(r[s.len() as int] == x);
        }
    }
    if no_member_twice(s) && r != s {
        assert forall|i: int, j: int| 0 <= i < j < r.len() implies r[i] != r[j] by {
            if j == s.len() {
                assert(s[i] == r[i]);
                assert(s.contains(s[i]));
            }
        }
    }
}

/// What is picked out of a collection: each member of it whose membership
/// in `other` is as asked, but the literal one, and none twice.
pub proof fn lemma_picked(items: Seq<Term>, other: Seq<Term>, present: bool, n: nat)
    requires
        n <= items.len(),
    ensures
        forall|y: Term| #[trigger]
            picked(items, other, present, n).contains(y) <==> items.take(n as int).contains(y)
                && other.contains(y) == present && !is_one(y),
        no_member_twice(picked(items, other, present, n)),
        holds_no_one(picked(items, other, present, n)),
    decreases n,
{
    let r = picked(items, other, present, n);
    if n == 0 {
        assert(items.take(0) =~= Seq::<Term>::empty());
    } else {
        let m = (n - 1) as nat;
        let before = picked(items, other, present, m);
        let x = items[n - 1];
        lemma_picked(items, other, present, m);
        lemma_put(before, x);
        assert(items.take(n as int) =~= items.take(m as int).push(x));
        assert forall|y: Term| #[trigger] r.contains(y) <==> items.take(n as int).contains(y)
            && other.contains(y) == present && !is_one(y) by {
            let shorter = items.take(m as int);
            let longer = items.take(n as int);
            if shorter.contains(y) {
                let i = choose|i: int| 0 <= i < shorter.len() && shorter[i] == y;
                assert(longer[i] == y);
            }
            if longer.contains(y) {
                let i = choose|i: int| 0 <= i < longer.len() && longer[i] == y;
                if i < m {
                    assert(shorter[i] == y);
                }
            }
            assert(longer[m as int] == x);
            assert(before.contains(y) <==> shorter.contains(y) && other.contains(y) == present
                && !is_one(y));
        }
    }
}

/// The members that two collections share are the expressions that are
/// members of both, but the literal one; and none of them twice.
pub proof fn lemma_shared(a: Seq<Term>, b: Seq<Term>)
    ensures
        forall|y: Term| #[trigger]
            shared(a, b).contains(y) <==> a.contains(y) && b.contains(y) && !is_one(y),
        no_member_twice(shared(a, b)),
        holds_no_one(shared(a, b)),
{
    lemma_picked(a, b, true, a.len());
    assert(a.take(a.len() as int) =~= a);
}

/// The members that remain are the members of `a` that are no members of
/// `b`, but the literal one; and none of them twice.
pub proof fn lemma_remaining(a: Seq<Term>, b: Seq<Term>)
    ensures
        forall|y: Term| #[trigger]
            remaining(a, b).contains(y) <==> a.contains(y) && !b.contains(y) && !is_one(y),
        no_member_twice(remaining(a, b)),
        holds_no_one(remaining(a, b)),
{
    lemma_picked(a, b, false, a.len());
    assert(a.take(a.len() as int) =~= a);
}

/// Two collections together hold as many members as the two hold, and an
/// expression is a member if it is one of either.
pub proof fn lemma_combined(a: Seq<Term>, b: Seq<Term>)
    ensures
        combined(a, b).len() == a.len() + b.len(),
        combined(a, b).to_multiset() == a.to_multiset().add(b.to_multiset()),
        forall|y: Term| #[trigger] combined(a, b).contains(y) <==> a.contains(y) || b.contains(y),
        holds_no_one(a) && holds_no_one(b) ==> holds_no_one(combined(a, b)),
{
    vstd::seq_lib::lemma_multiset_commutative(a, b);
    assert forall|y: Term| #[trigger] (a + b).contains(y) <==> a.contains(y) || b.contains(
        y,
    ) by {
        if (a + b).contains(y) {
            let i = choose|i: int| 0 <= i < (a + b).len() && (a + b)[i] == y;
            if i < a.len() {
                assert(a[i] == y);
            } else {
                assert(b[i - a.len()] == y);
            }
        }
        if a.contains(y) {
            let i = choose|i: int| 0 <= i < a.len() && a[i] == y;
            assert((a + b)[i] == y);
        }
        if b.contains(y) {
            let i = choose|i: int| 0 <= i < b.len() && b[i] == y;
            assert((a + b)[a.len() + i] == y);
        }
    }
    if holds_no_one(a) && holds_no_one(b) {
        assert forall|i: int| 0 <= i < (a + b).len() implies !is_one(#[trigger] (a + b)[i]) by {
            if i < a.len() {
                assert((a + b)[i] == a[i]);
            } else {
                assert((a + b)[i] == b[i - a.len()]);
            }
        }
    }
}

/// A new, empty bucket.
fn empty_bucket(_index: usize) -> (r: Vec<Sym>)
    ensures
        r@.len() == 0,
{
    Vec::new()
}

/// `array_init::array_init` calls the initializer once for each index, in
/// order, and returns the array of what it gave: here sixteen empty buckets.
#[verifier::external_body]
fn empty_buckets() -> (r: [Vec<Sym>; 16])
    ensures
        forall|i: int| 0 <= i < 16 ==> (#[trigger] r@[i])@.len() == 0,
{
    array_init::array_init(|index| empty_bucket(index))
}

/// A collection of expressions: a set as long as expressions are put into
/// it one by one; with members more than once where two were combined.
pub struct CommonTerms {
    elements: usize,
    fields: [Vec<Sym>; 16],
    hashes: Vec<Sym>,
}

impl View for CommonTerms {
    type V = Seq<Term>;

    closed spec fn view(&self) -> Seq<Term> {
        terms_of(self.hashes@)
    }
}

/// The bucket of an expression.
pub fn bucket_of(el: &Sym) -> (h: usize)
    ensures
        h == term_hash(el@),
        h < 16,
{
    match el {
        Sym::Number(b) => ((*b / 0x100_0000) % 16) as usize,
        _ => {
            let mut letters: Vec<char> = Vec::new();
            push_text(&mut letters, el);
            assert(letters@ =~= text(el@));
            let mut h: usize = 0;
            if letters.len() > 0 {
                h = h + (letters[0] as u32 % 2) as usize;
            }
            if letters.len() > 1 {
                h = h + ((letters[1] as u32 / 2) % 2 * 2) as usize;
            }
            if letters.len() > 2 {
                h = h + ((letters[2] as u32 / 4) % 2 * 4) as usize;
            }
            if letters.len() > 3 {
                h = h + ((letters[3] as u32 / 8) % 2 * 8) as usize;
            }
            h
        },
    }
}

impl CommonTerms {
    /// Every member lies in its bucket and in no other, and the literal one
    /// is no member.
    pub closed spec fn wf(&self) -> bool {
        &&& self.elements == self.hashes@.len()
        &&& forall|i: int| 0 <= i < self@.len() ==> !is_one(#[trigger] self@[i])
        &&& forall|h: int, j: int|
            0 <= h < 16 && 0 <= j < self.fields@[h]@.len() ==> {
                &&& term_hash(#[trigger] self.fields@[h]@[j]@) == h
                &&& self@.contains(self.fields@[h]@[j]@)
            }
        &&& forall|i: int|
            0 <= i < self@.len() ==> terms_of(self.fields@[term_hash(#[trigger] self@[i])]@).contains(
                self@[i],
            )
    }

    /// A well-formed collection never holds the literal one.
    pub proof fn lemma_holds_no_one(&self)
        requires
            self.wf(),
        ensures
            holds_no_one(self@),
            !self@.contains(Term::Number(crate::literal::ONE)),
    {
        if self@.contains(Term::Number(crate::literal::ONE)) {
            let i = choose|i: int| 0 <= i < self@.len() && self@[i] == Term::Number(
                crate::literal::ONE,
            );
            assert(!is_one(self@[i]));
        }
    }

    /// The empty set.
    pub fn new() -> (r: CommonTerms)
        ensures
            r.wf(),
            r@ == Seq::<Term>::empty(),
    {
        let r = CommonTerms { elements: 0, fields: empty_buckets(), hashes: Vec::new() };
        assert(r@ =~= Seq::<Term>::empty());
        r
    }

    /// The number of members.
    pub fn len(&self) -> (n: usize)
        requires
            self.wf(),
        ensures
            n == self@.len(),
    {
        self.elements
    }

    /// Whether the set has no member.
    pub fn is_empty(&self) -> (r: bool)
        requires
            self.wf(),
        ensures
            r == (self@.len() == 0),
    {
        self.elements == 0
    }

    /// Whether `el` is a member.
    pub fn contains(&self, el: &Sym) -> (r: bool)
        requires
            self.wf(),
        ensures
            r == self@.contains(el@),
    {
        let h = bucket_of(el);
        let mut j: usize = 0;
        while j < self.fields[h].len()
            invariant
                self.wf(),
                h == term_hash(el@),
                h < 16,
                j <= self.fields@[h as int]@.len(),
                forall|k: int| 0 <= k < j ==> self.fields@[h as int]@[k]@ != el@,
            decreases self.fields@[h as int]@.len() - j,
        {
            if self.fields[h][j].eq_internal(el) {
                return true;
            }
            j += 1;
        }
        proof {
            if self@.contains(el@) {
                let i = choose|i: int| 0 <= i < self@.len() && self@[i] == el@;
                assert(terms_of(self.fields@[term_hash(self@[i])]@).contains(self@[i]));
                let k = choose|k: int|
                    0 <= k < terms_of(self.fields@[h as int]@).len() && terms_of(
                        self.fields@[h as int]@,
                    )[k] == el@;
                assert(self.fields@[h as int]@[k]@ == el@);
            }
        }
        false
    }

    /// Puts `el` into the set. Says whether the set holds it afterwards:
    /// it never holds the literal one.
    pub fn insert(&mut self, el: Sym) -> (r: bool)
        requires
            old(self).wf(),
        ensures
            final(self).wf(),
            final(self)@ == put(old(self)@, el@),
            r == !is_one(el@),
    {
        if el.is_one() {
            return false;
        }
        if self.contains(&el) {
            return true;
        }
        self.push_member(el);
        true
    }

    /// Appends `el`, which is not the literal one, as a member.
    fn push_member(&mut self, el: Sym)
        requires
            old(self).wf(),
            !is_one(el@),
        ensures
            final(self).wf(),
            final(self)@ == old(self)@.push(el@),
    {
        let h = bucket_of(&el);
        let ghost before = *self;
        let copy = el.duplicate();
        self.fields[h].push(copy);
        self.hashes.push(el);
        self.elements = self.hashes.len();
        proof {
            assert(self@ =~= before@.push(el@));
            assert forall|g: int, j: int|
                0 <= g < 16 && 0 <= j < self.fields@[g]@.len() implies {
                &&& term_hash(#[trigger] self.fields@[g]@[j]@) == g
                &&& self@.contains(self.fields@[g]@[j]@)
            } by {
                if g == h && j == before.fields@[g]@.len() {
                    assert(self@[before@.len() as int] == el@);
                } else {
                    let x = before.fields@[g]@[j]@;
                    assert(before@.contains(x));
                    let i = choose|i: int| 0 <= i < before@.len() && before@[i] == x;
                    assert(self@[i] == x);
                }
            }
            assert forall|i: int| 0 <= i < self@.len() implies terms_of(
                self.fields@[term_hash(#[trigger] self@[i])]@,
            ).contains(self@[i]) by {
                let g = term_hash(self@[i]);
                if i == before@.len() {
                    assert(terms_of(self.fields@[h as int]@)[before.fields@[h as int]@.len() as int]
                        == el@);
                } else {
                    assert(before@[i] == self@[i]);
                    assert(terms_of(before.fields@[g]@).contains(before@[i]));
                    let k = choose|k: int|
                        0 <= k < terms_of(before.fields@[g]@).len() && terms_of(
                            before.fields@[g]@,
                        )[k] == before@[i];
                    assert(terms_of(self.fields@[g]@)[k] == self@[i]);
                }
            }
        }
    }

    /// The members, in the order in which they came in.
    pub fn members(&self) -> (r: Vec<Sym>)
        ensures
            terms_of(r@) == self@,
    {
        crate::syms::duplicate_all(&self.hashes)
    }

    fn push_members(&mut self, items: &Vec<Sym>)
        requires
            old(self).wf(),
            holds_no_one(terms_of(items@)),
        ensures
            final(self).wf(),
            final(self)@ == old(self)@ + terms_of(items@),
    {
        let mut i: usize = 0;
        assert(self@ =~= old(self)@ + terms_of(items@).take(0));
        while i < items.len()
            invariant
                i <= items.len(),
                self.wf(),
                holds_no_one(terms_of(items@)),
                self@ == old(self)@ + terms_of(items@).take(i as int),
            decreases items.len() - i,
        {
            assert(!is_one(terms_of(items@)[i as int]));
            self.push_member(items[i].duplicate());
            i += 1;
            assert(self@ =~= old(self)@ + terms_of(items@).take(i as int));
        }
        assert(terms_of(items@).take(items@.len() as int) =~= terms_of(items@));
    }

    fn pick(&self, other: &CommonTerms, present: bool) -> (r: CommonTerms)
        requires
            self.wf(),
            other.wf(),
        ensures
            r.wf(),
            r@ == picked(self@, other@, present, self@.len()),
    {
        let mut ret = CommonTerms::new();
        let mut i: usize = 0;
        while i < self.hashes.len()
            invariant
                i <= self.hashes@.len(),
                self.wf(),
                other.wf(),
                ret.wf(),
                ret@ == picked(self@, other@, present, i as nat),
            decreases self.hashes@.len() - i,
        {
            if other.contains(&self.hashes[i]) == present {
                ret.insert(self.hashes[i].duplicate());
            }
            i += 1;
        }
        ret
    }

    /// An independent copy of this set.
    pub fn duplicate(&self) -> (r: CommonTerms)
        requires
            self.wf(),
        ensures
            r.wf(),
            r@ == self@,
    {
        let mut ret = CommonTerms::new();
        proof {
            self.lemma_holds_no_one();
        }
        ret.push_members(&self.hashes);
        assert(ret@ =~= self@);
        ret
    }

    /// The members of both collections together, each as often as the two
    /// hold it.
    pub fn combine(&self, other: &CommonTerms) -> (r: CommonTerms)
        requires
            self.wf(),
            other.wf(),
        ensures
            r.wf(),
            r@ == combined(self@, other@),
    {
        let mut ret = CommonTerms::new();
        proof {
            self.lemma_holds_no_one();
            other.lemma_holds_no_one();
        }
        ret.push_members(&self.hashes);
        ret.push_members(&other.hashes);
        assert(ret@ =~= self@ + other@);
        ret
    }

    /// The members that both sets hold: what is common to the two, which is
    /// what the simplifier asks for under this name.
    pub fn union(&self, other: &CommonTerms) -> (r: CommonTerms)
        requires
            self.wf(),
            other.wf(),
        ensures
            r.wf(),
            r@ == shared(self@, other@),
    {
        self.pick(other, true)
    }

    /// The members of this set that `other` lacks.
    pub fn subtract(&self, other: &CommonTerms) -> (r: CommonTerms)
        requires
            self.wf(),
            other.wf(),
        ensures
            r.wf(),
            r@ == remaining(self@, other@),
    {
        self.pick(other, false)
    }
}

} // verus!
