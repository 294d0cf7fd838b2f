//! The canonical order of expressions.
//!
//! Operands of a commutative collection are put in one fixed order: first by
//! class (symbols, then literals, then constants, then compound
//! expressions), inside a class by text, and between two expressions of one
//! class and one text by their structure. The order is total, so a
//! collection has exactly one sorted arrangement.
use crate::display::{push_text, text};
use crate::syms::{terms_of, Operation, Sym, Term};
use vstd::prelude::*;
use vstd::relations::total_ordering;
use vstd::string::StrSliceExecFns;

verus! {

/// The class of an expression: symbols come first, compound expressions last.
pub open spec fn rank(t: Term) -> int {
    match t {
        Term::Identifier(_) => 0,
        Term::Number(_) => 1,
        Term::Constant(_) => 2,
        _ => 3,
    }
}

/// The number that stands for the outermost form of an expression.
pub open spec fn tag(t: Term) -> int {
    match t {
        Term::Number(_) => 0,
        Term::Identifier(_) => 1,
        Term::Constant(_) => 2,
        Term::Sqrt(_) => 3,
        Term::Add(_, _) => 4,
        Term::Sum(_) => 5,
        Term::Sub(_, _) => 6,
        Term::UnSub(_) => 7,
        Term::Div(_, _) => 8,
        Term::Mul(_, _) => 9,
        Term::Prod(_) => 10,
        Term::Rem(_, _) => 11,
        Term::Cos(_) => 12,
        Term::Sin(_) => 13,
        Term::Nop(_) => 14,
    }
}

/// The code points of a text.
pub open spec fn code_points(s: Seq<char>) -> Seq<int> {
    Seq::new(s.len(), |i: int| s[i] as u32 as int)
}

/// An expression written as a sequence of numbers, in prefix form: the tag,
/// then what the form holds. A collection gives its length before its
/// members. No two expressions have the same code.
pub open spec fn code(t: Term) -> Seq<int>
    decreases t, 0nat,
{
    match t {
        Term::Number(b) => seq![0int, b as int],
        Term::Identifier(name) => seq![1int, name.len() as int] + code_points(name),
        Term::Constant(_) => seq![2int],
        Term::Sqrt(s) => seq![3int] + code(*s),
        Term::Add(a, b) => seq![4int] + code(*a) + code(*b),
        Term::Sum(v) => seq![5int, v.len() as int] + codes(v, v.len()),
        Term::Sub(a, b) => seq![6int] + code(*a) + code(*b),
        Term::UnSub(s) => seq![7int] + code(*s),
        Term::Div(a, b) => seq![8int] + code(*a) + code(*b),
        Term::Mul(a, b) => seq![9int] + code(*a) + code(*b),
        Term::Prod(v) => seq![10int, v.len() as int] + codes(v, v.len()),
        Term::Rem(a, b) => seq![11int] + code(*a) + code(*b),
        Term::Cos(s) => seq![12int] + code(*s),
        Term::Sin(s) => seq![13int] + code(*s),
        Term::Nop(s) => seq![14int] + code(*s),
    }
}

/// The codes of the first `n` members of a collection, one after another.
pub open spec fn codes(v: Seq<Term>, n: nat) -> Seq<int>
    decreases v, n,
{
    if n == 0 || n > v.len() {
        Seq::empty()
    } else {
        codes(v, (n - 1) as nat) + code(v[n - 1])
    }
}

/// The text of an expression as numbers above zero.
pub open spec fn raised(s: Seq<char>) -> Seq<int> {
    Seq::new(s.len(), |i: int| s[i] as u32 as int + 1)
}

/// What the order compares: the class, the text, a zero that ends the text,
/// and the code.
pub open spec fn key(t: Term) -> Seq<int> {
    seq![rank(t)] + raised(text(t)) + seq![0int] + code(t)
}

/// Dictionary order from position `i` on; a sequence that ends first comes
/// first.
pub open spec fn lex_le_from(a: Seq<int>, b: Seq<int>, i: int) -> bool
    decreases a.len() - i,
{
    if i < 0 || i >= a.len() {
        true
    } else if i >= b.len() {
        false
    } else if a[i] != b[i] {
        a[i] < b[i]
    } else {
        lex_le_from(a, b, i + 1)
    }
}

/// Dictionary order.
pub open spec fn lex_le(a: Seq<int>, b: Seq<int>) -> bool {
    lex_le_from(a, b, 0)
}

/// `a` comes no later than `b` in the canonical order.
pub open spec fn term_le(a: Term, b: Term) -> bool {
    lex_le(key(a), key(b))
}

/// The canonical order as a relation.
pub open spec fn term_order() -> spec_fn(Term, Term) -> bool {
    |a: Term, b: Term| term_le(a, b)
}

proof fn lemma_lex_reflexive(a: Seq<int>, i: int)
    ensures
        lex_le_from(a, a, i),
    decreases a.len() - i,
{
    if 0 <= i < a.len() {
        lemma_lex_reflexive(a, i + 1);
    }
}

proof fn lemma_lex_connected(a: Seq<int>, b: Seq<int>, i: int)
    ensures
        lex_le_from(a, b, i) || lex_le_from(b, a, i),
    decreases a.len() - i,
{
    if 0 <= i < a.len() && i < b.len() && a[i] == b[i] {
        lemma_lex_connected(a, b, i + 1);
    }
}

proof fn lemma_lex_antisymmetric(a: Seq<int>, b: Seq<int>, i: int)
    requires
        0 <= i <= a.len(),
        i <= b.len(),
        lex_le_from(a, b, i),
        lex_le_from(b, a, i),
    ensures
        a.len() == b.len(),
        forall|j: int| i <= j < a.len() ==> a[j] == b[j],
    decreases a.len() - i,
{
    if i < a.len() {
        lemma_lex_antisymmetric(a, b, i + 1);
    }
}

proof fn lemma_lex_transitive(a: Seq<int>, b: Seq<int>, c: Seq<int>, i: int)
    requires
        lex_le_from(a, b, i),
        lex_le_from(b, c, i),
    ensures
        lex_le_from(a, c, i),
    decreases a.len() - i,
{
    if 0 <= i < a.len() {
        if a[i] == b[i] && b[i] == c[i] {
            lemma_lex_transitive(a, b, c, i + 1);
        }
    }
}

/// A code starts with the tag of its expression.
pub proof fn lemma_code_head(t: Term)
    ensures
        code(t).len() >= 1,
        code(t)[0] == tag(t),
{
}

/// An expression can be read back from the front of a sequence in one way
/// only.
pub proof fn lemma_code_prefix(a: Term, b: Term, x: Seq<int>, y: Seq<int>)
    requires
        code(a) + x == code(b) + y,
    ensures
        a == b,
        x == y,
    decreases a, 0nat,
{
    let l = code(a) + x;
    let r = code(b) + y;
    lemma_code_head(a);
    lemma_code_head(b);
    assert(l[0] == tag(a));
    assert(r[0] == tag(b));
    match a {
        Term::Number(n) => {
            assert(l[1] == n as int);
            assert(r[1] == b->Number_0 as int);
            assert(x =~= l.skip(2));
            assert(y =~= r.skip(2));
        },
        Term::Identifier(name) => {
            let other = b->Identifier_0;
            assert(l[1] == name.len());
            assert(r[1] == other.len());
            assert forall|i: int| 0 <= i < name.len() implies name[i] == other[i] by {
                assert(l[2 + i] == name[i] as u32 as int);
                assert(r[2 + i] == other[i] as u32 as int);
                vstd::utf8::char_u32_cast(name[i], name[i] as u32);
                vstd::utf8::char_u32_cast(other[i], other[i] as u32);
            }
            assert(name =~= other);
            assert(x =~= l.skip(2 + name.len() as int));
            assert(y =~= r.skip(2 + name.len() as int));
        },
        Term::Constant(c) => {
            assert(x =~= l.skip(1));
            assert(y =~= r.skip(1));
        },
        Term::Sqrt(s) => {
            lemma_unary_prefix(*s, *b->Sqrt_0, 3, x, y);
        },
        Term::UnSub(s) => {
            lemma_unary_prefix(*s, *b->UnSub_0, 7, x, y);
        },
        Term::Cos(s) => {
            lemma_unary_prefix(*s, *b->Cos_0, 12, x, y);
        },
        Term::Sin(s) => {
            lemma_unary_prefix(*s, *b->Sin_0, 13, x, y);
        },
        Term::Nop(s) => {
            lemma_unary_prefix(*s, *b->Nop_0, 14, x, y);
        },
        Term::Add(p, q) => {
            let s = *b->Add_0;
            let t = *b->Add_1;
            assert(code(*p) + (code(*q) + x) =~= l.skip(1));
            assert(code(s) + (code(t) + y) =~= r.skip(1));
            lemma_code_prefix(*p, s, code(*q) + x, code(t) + y);
            lemma_code_prefix(*q, t, x, y);
        },
        Term::Sub(p, q) => {
            let s = *b->Sub_0;
            let t = *b->Sub_1;
            assert(code(*p) + (code(*q) + x) =~= l.skip(1));
            assert(code(s) + (code(t) + y) =~= r.skip(1));
            lemma_code_prefix(*p, s, code(*q) + x, code(t) + y);
            lemma_code_prefix(*q, t, x, y);
        },
        Term::Div(p, q) => {
            let s = *b->Div_0;
            let t = *b->Div_1;
            assert(code(*p) + (code(*q) + x) =~= l.skip(1));
            assert(code(s) + (code(t) + y) =~= r.skip(1));
            lemma_code_prefix(*p, s, code(*q) + x, code(t) + y);
            lemma_code_prefix(*q, t, x, y);
        },
        Term::Mul(p, q) => {
            let s = *b->Mul_0;
            let t = *b->Mul_1;
            assert(code(*p) + (code(*q) + x) =~= l.skip(1));
            assert(code(s) + (code(t) + y) =~= r.skip(1));
            lemma_code_prefix(*p, s, code(*q) + x, code(t) + y);
            lemma_code_prefix(*q, t, x, y);
        },
        Term::Rem(p, q) => {
            let s = *b->Rem_0;
            let t = *b->Rem_1;
            assert(code(*p) + (code(*q) + x) =~= l.skip(1));
            assert(code(s) + (code(t) + y) =~= r.skip(1));
            lemma_code_prefix(*p, s, code(*q) + x, code(t) + y);
            lemma_code_prefix(*q, t, x, y);
        },
        Term::Sum(v) => {
            let w = b->Sum_0;
            assert(l[1] == v.len());
            assert(r[1] == w.len());
            assert(codes(v, v.len()) + x =~= l.skip(2));
            assert(codes(w, w.len()) + y =~= r.skip(2));
            lemma_codes_prefix(v, w, v.len(), x, y);
            assert(v =~= w);
        },
        Term::Prod(v) => {
            let w = b->Prod_0;
            assert(l[1] == v.len());
            assert(r[1] == w.len());
            assert(codes(v, v.len()) + x =~= l.skip(2));
            assert(codes(w, w.len()) + y =~= r.skip(2));
            lemma_codes_prefix(v, w, v.len(), x, y);
            assert(v =~= w);
        },
    }
}

proof fn lemma_unary_prefix(s: Term, t: Term, head: int, x: Seq<int>, y: Seq<int>)
    requires
        seq![head] + code(s) + x == seq![head] + code(t) + y,
    ensures
        s == t,
        x == y,
    decreases s, 1nat,
{
    let l = seq![head] + code(s) + x;
    let r = seq![head] + code(t) + y;
    assert(code(s) + x =~= l.skip(1));
    assert(code(t) + y =~= r.skip(1));
    lemma_code_prefix(s, t, x, y);
}

proof fn lemma_codes_prefix(v: Seq<Term>, w: Seq<Term>, n: nat, x: Seq<int>, y: Seq<int>)
    requires
        n <= v.len(),
        n <= w.len(),
        codes(v, n) + x == codes(w, n) + y,
    ensures
        forall|j: int| 0 <= j < n ==> v[j] == w[j],
        x == y,
    decreases v, n,
{
    if n == 0 {
        assert(x =~= codes(v, n) + x);
        assert(y =~= codes(w, n) + y);
    } else {
        let m = (n - 1) as nat;
        assert(codes(v, m) + (code(v[n - 1]) + x) =~= codes(v, n) + x);
        assert(codes(w, m) + (code(w[n - 1]) + y) =~= codes(w, n) + y);
        lemma_codes_prefix(v, w, m, code(v[n - 1]) + x, code(w[n - 1]) + y);
        lemma_code_prefix(v[n - 1], w[n - 1], x, y);
    }
}

/// No two expressions have the same code.
pub proof fn lemma_code_injective(a: Term, b: Term)
    requires
        code(a) == code(b),
    ensures
        a == b,
{
    lemma_code_prefix(a, b, Seq::empty(), Seq::empty());
}

/// No two expressions have the same key.
pub proof fn lemma_key_injective(a: Term, b: Term)
    requires
        key(a) == key(b),
    ensures
        a == b,
{
    let n = text(a).len() as int;
    let m = text(b).len() as int;
    if n < m {
        assert(key(a)[1 + n] == 0);
        assert(key(b)[1 + n] == text(b)[n] as u32 as int + 1);
    } else if m < n {
        assert(key(b)[1 + m] == 0);
        assert(key(a)[1 + m] == text(a)[m] as u32 as int + 1);
    } else {
        assert(code(a) =~= key(a).skip(2 + n));
        assert(code(b) =~= key(b).skip(2 + n));
        lemma_code_injective(a, b);
    }
}

/// The canonical order is a total order.
pub proof fn lemma_term_order_total()
    ensures
        total_ordering(term_order()),
{
    let le = term_order();
    assert forall|a: Term| #[trigger] le(a, a) by {
        lemma_lex_reflexive(key(a), 0);
    }
    assert forall|a: Term, b: Term| #[trigger] le(a, b) && #[trigger] le(b, a) implies a == b by {
        lemma_lex_antisymmetric(key(a), key(b), 0);
        assert(key(a) =~= key(b));
        lemma_key_injective(a, b);
    }
    assert forall|a: Term, b: Term, c: Term| #[trigger] le(a, b) && #[trigger] le(b, c) implies le(
        a,
        c,
    ) by {
        lemma_lex_transitive(key(a), key(b), key(c), 0);
    }
    assert forall|a: Term, b: Term| #[trigger] le(a, b) || #[trigger] le(b, a) by {
        lemma_lex_connected(key(a), key(b), 0);
    }
}

/// Machine numbers read as integers.
pub open spec fn ints(s: Seq<u64>) -> Seq<int> {
    Seq::new(s.len(), |i: int| s[i] as int)
}

/// A collection in canonical order.
pub open spec fn sorted(s: Seq<Term>) -> Seq<Term> {
    s.sort_by(term_order())
}

/// A sorted collection holds what the collection held, in canonical order.
pub proof fn lemma_sorted(s: Seq<Term>)
    ensures
        vstd::relations::sorted_by(sorted(s), term_order()),
        sorted(s).to_multiset() == s.to_multiset(),
        sorted(s).len() == s.len(),
        forall|x: Term| sorted(s).contains(x) <==> s.contains(x),
{
    broadcast use vstd::seq_lib::group_to_multiset_ensures;

    lemma_term_order_total();
    s.lemma_sort_by_ensures(term_order());
    assert(sorted(s).to_multiset() =~= s.to_multiset());
    vstd::seq_lib::to_multiset_len(s);
    vstd::seq_lib::to_multiset_len(sorted(s));
    assert forall|x: Term| sorted(s).contains(x) <==> s.contains(x) by {
        assert(sorted(s).to_multiset().count(x) == s.to_multiset().count(x));
    }
}

/// Canonical order is the only sorted arrangement: a sorted collection with
/// the same members is the sorted collection.
pub proof fn lemma_sorted_is_unique(s: Seq<Term>, t: Seq<Term>)
    requires
        vstd::relations::sorted_by(t, term_order()),
        t.to_multiset() == s.to_multiset(),
    ensures
        t == sorted(s),
{
    lemma_term_order_total();
    lemma_sorted(s);
    vstd::seq_lib::lemma_sorted_unique(t, sorted(s), term_order());
}

/// Sorting a sorted collection changes nothing.
pub proof fn lemma_sorted_twice(s: Seq<Term>)
    ensures
        sorted(sorted(s)) == sorted(s),
{
    lemma_sorted(s);
    lemma_sorted_is_unique(sorted(s), sorted(s));
}

/// The class of an expression.
pub fn prio(s: &Sym) -> (r: usize)
    ensures
        r == rank(s@),
{
    match s {
        Sym::Identifier(_) => 0,
        Sym::Number(_) => 1,
        Sym::Constant(_) => 2,
        Sym::Operation(_) => 3,
    }
}

fn push_int(out: &mut Vec<u64>, x: u64)
    ensures
        ints(final(out)@) == ints(old(out)@).push(x as int),
{
    out.push(x);
    assert(ints(out@) =~= ints(old(out)@).push(x as int));
}

fn push_code(out: &mut Vec<u64>, s: &Sym)
    ensures
        ints(final(out)@) == ints(old(out)@) + code(s@),
    decreases s, 0nat,
{
    match s {
        Sym::Number(b) => {
            push_int(out, 0);
            push_int(out, *b as u64);
            assert(ints(out@) =~= ints(old(out)@) + code(s@));
        },
        Sym::Identifier(name) => {
            let n = name.unicode_len();
            push_int(out, 1);
            push_int(out, n as u64);
            let mut i: usize = 0;
            while i < n
                invariant
                    i <= n == name@.len(),
                    ints(out@) == ints(old(out)@) + seq![1int, n as int] + code_points(
                        name@,
                    ).take(i as int),
                decreases n - i,
            {
                let c = name.get_char(i);
                push_int(out, c as u32 as u64);
                i += 1;
                assert(ints(out@) =~= ints(old(out)@) + seq![1int, n as int] + code_points(
                    name@,
                ).take(i as int));
            }
            assert(code_points(name@).take(n as int) =~= code_points(name@));
            assert(ints(out@) =~= ints(old(out)@) + code(s@));
        },
        Sym::Constant(_) => {
            push_int(out, 2);
            assert(ints(out@) =~= ints(old(out)@) + code(s@));
        },
        Sym::Operation(o) => {
            push_operation_code(out, o);
        },
    }
}

fn push_codes(out: &mut Vec<u64>, v: &Vec<Sym>)
    ensures
        ints(final(out)@) == ints(old(out)@) + codes(terms_of(v@), v@.len()),
    decreases v, 1nat,
{
    let ghost terms = terms_of(v@);
    let mut i: usize = 0;
    assert(ints(out@) =~= ints(old(out)@) + codes(terms, 0));
    while i < v.len()
        invariant
            i <= v.len(),
            terms == terms_of(v@),
            ints(out@) == ints(old(out)@) + codes(terms, i as nat),
        decreases v.len() - i,
    {
        push_code(out, &v[i]);
        i += 1;
        assert(ints(out@) =~= ints(old(out)@) + codes(terms, i as nat));
    }
}

fn push_operation_code(out: &mut Vec<u64>, o: &Operation)
    ensures
        ints(final(out)@) == ints(old(out)@) + code(o@),
    decreases o, 0nat,
{
    match o {
        Operation::Sqrt(s) => {
            push_int(out, 3);
            push_code(out, s);
        },
        Operation::Add(a, b) => {
            push_int(out, 4);
            push_code(out, a);
            push_code(out, b);
        },
        Operation::Sum(v) => {
            push_int(out, 5);
            push_int(out, v.len() as u64);
            push_codes(out, v);
        },
        Operation::Sub(a, b) => {
            push_int(out, 6);
            push_code(out, a);
            push_code(out, b);
        },
        Operation::UnSub(s) => {
            push_int(out, 7);
            push_code(out, s);
        },
        Operation::Div(a, b) => {
            push_int(out, 8);
            push_code(out, a);
            push_code(out, b);
        },
        Operation::Mul(a, b) => {
            push_int(out, 9);
            push_code(out, a);
            push_code(out, b);
        },
        Operation::Prod(v) => {
            push_int(out, 10);
            push_int(out, v.len() as u64);
            push_codes(out, v);
        },
        Operation::Rem(a, b) => {
            push_int(out, 11);
            push_code(out, a);
            push_code(out, b);
        },
        Operation::Cos(s) => {
            push_int(out, 12);
            push_code(out, s);
        },
        Operation::Sin(s) => {
            push_int(out, 13);
            push_code(out, s);
        },
        Operation::Nop(s) => {
            push_int(out, 14);
            push_code(out, s);
        },
    }
    assert(ints(out@) =~= ints(old(out)@) + code(o@));
}

/// The key of an expression.
pub fn sort_key(s: &Sym) -> (r: Vec<u64>)
    ensures
        ints(r@) == key(s@),
{
    let mut out: Vec<u64> = Vec::new();
    push_int(&mut out, prio(s) as u64);
    let mut letters: Vec<char> = Vec::new();
    push_text(&mut letters, s);
    assert(letters@ =~= text(s@));
    let mut i: usize = 0;
    while i < letters.len()
        invariant
            i <= letters.len(),
            letters@ == text(s@),
            ints(out@) == seq![rank(s@)] + raised(text(s@)).take(i as int),
        decreases letters.len() - i,
    {
        push_int(&mut out, letters[i] as u32 as u64 + 1);
        i += 1;
        assert(ints(out@) =~= seq![rank(s@)] + raised(text(s@)).take(i as int));
    }
    assert(raised(text(s@)).take(letters.len() as int) =~= raised(text(s@)));
    push_int(&mut out, 0);
    push_code(&mut out, s);
    assert(ints(out@) =~= key(s@));
    out
}

/// Whether one key comes no later than another.
pub fn key_le(a: &Vec<u64>, b: &Vec<u64>) -> (r: bool)
    ensures
        r == lex_le(ints(a@), ints(b@)),
{
    let mut i: usize = 0;
    while i < a.len() && i < b.len() && a[i] == b[i]
        invariant
            i <= a.len(),
            i <= b.len(),
            lex_le(ints(a@), ints(b@)) == lex_le_from(ints(a@), ints(b@), i as int),
        decreases a.len() - i,
    {
        i += 1;
    }
    if i >= a.len() {
        true
    } else if i >= b.len() {
        false
    } else {
        a[i] < b[i]
    }
}

/// Whether `a` comes no later than `b` in the canonical order.
pub fn precedes(a: &Sym, b: &Sym) -> (r: bool)
    ensures
        r == term_le(a@, b@),
{
    let ka = sort_key(a);
    let kb = sort_key(b);
    key_le(&ka, &kb)
}

/// Puts a collection in canonical order.
pub fn sort_syms(v: Vec<Sym>) -> (r: Vec<Sym>)
    ensures
        terms_of(r@) == sorted(terms_of(v@)),
{
    broadcast use vstd::seq_lib::group_to_multiset_ensures;

    let ghost le = term_order();
    let ghost whole = terms_of(v@);
    let mut rest = v;
    let mut out: Vec<Sym> = Vec::new();
    let mut keys: Vec<Vec<u64>> = Vec::new();
    proof {
        lemma_term_order_total();
        assert(terms_of(out@) =~= Seq::<Term>::empty());
        assert(terms_of(out@).to_multiset().add(terms_of(rest@).to_multiset()) =~= whole.to_multiset());
    }
    while rest.len() > 0
        invariant
            le == term_order(),
            total_ordering(le),
            keys@.len() == out@.len(),
            forall|i: int| 0 <= i < out@.len() ==> ints(#[trigger] keys@[i]@) == key(out@[i]@),
            vstd::relations::sorted_by(terms_of(out@), le),
            terms_of(out@).to_multiset().add(terms_of(rest@).to_multiset()) == whole.to_multiset(),
        decreases rest.len(),
    {
        let ghost before = terms_of(rest@);
        let ghost placed = terms_of(out@);
        let x = rest.pop().unwrap();
        proof {
            assert(before =~= terms_of(rest@).push(x@));
        }
        let kx = sort_key(&x);
        let mut j: usize = 0;
        while j < out.len() && key_le(&keys[j], &kx)
            invariant
                j <= out@.len(),
                keys@.len() == out@.len(),
                forall|i: int| 0 <= i < out@.len() ==> ints(#[trigger] keys@[i]@) == key(out@[i]@),
                ints(kx@) == key(x@),
                forall|i: int| 0 <= i < j ==> term_le(#[trigger] out@[i]@, x@),
            decreases out@.len() - j,
        {
            j += 1;
        }
        proof {
            let after = placed.insert(j as int, x@);
            assert forall|a: int, b: int| 0 <= a < b < after.len() implies le(
                after[a],
                after[b],
            ) by {
                if b < j {
                    assert(le(placed[a], placed[b]));
                } else if b == j {
                    assert(term_le(out@[a]@, x@));
                } else if a < j {
                    assert(le(placed[a], placed[b - 1]));
                } else if a == j {
                    assert(!term_le(out@[j as int]@, x@));
                    assert(le(placed[j as int], x@) || le(x@, placed[j as int]));
                    if b - 1 > j {
                        assert(le(placed[j as int], placed[b - 1]));
                    }
                    assert(le(x@, placed[b - 1]));
                } else {
                    assert(le(placed[a - 1], placed[b - 1]));
                }
            }
            assert(placed.len() == out@.len());
            vstd::seq_lib::to_multiset_insert(placed, j as int, x@);
            vstd::seq_lib::to_multiset_build(terms_of(rest@), x@);
            assert(after.to_multiset() =~= placed.to_multiset().insert(x@));
            assert(before.to_multiset() =~= terms_of(rest@).to_multiset().insert(x@));
            assert(after.to_multiset().add(terms_of(rest@).to_multiset()) =~= whole.to_multiset());
        }
        out.insert(j, x);
        keys.insert(j, kx);
        proof {
            assert(terms_of(out@) =~= placed.insert(j as int, x@));
        }
    }
    proof {
        assert(terms_of(rest@) =~= Seq::<Term>::empty());
        assert(terms_of(out@).to_multiset() =~= whole.to_multiset());
        lemma_sorted_is_unique(whole, terms_of(out@));
    }
    out
}

} // verus!
