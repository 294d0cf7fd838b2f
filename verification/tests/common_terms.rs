use robotics::syms::{Operation, Sym};
use robotics::terms::{bucket_of, CommonTerms, BUCKETS};

fn num(x: f32) -> Sym {
    Sym::Number(x.to_bits())
}

fn sym(name: &'static str) -> Sym {
    Sym::Identifier(name)
}

fn op(o: Operation) -> Sym {
    Sym::Operation(Box::new(o))
}

fn set_of(items: Vec<Sym>) -> CommonTerms {
    let mut s = CommonTerms::new();
    for x in items {
        s.insert(x);
    }
    s
}

#[test]
fn a_new_set_is_empty() {
    let s = CommonTerms::new();
    assert_eq!(s.len(), 0);
    assert!(s.is_empty());
    assert!(!s.contains(&sym("x")));
    assert!(!s.contains(&num(0.0)));
    assert_eq!(s.members(), Vec::<Sym>::new());
}

#[test]
fn insert_keeps_each_member_once() {
    let mut s = CommonTerms::new();
    assert!(s.insert(sym("x")));
    assert!(s.insert(sym("y")));
    assert!(s.insert(sym("x")));
    assert_eq!(s.len(), 2);
    assert!(!s.is_empty());
    assert!(s.contains(&sym("x")));
    assert!(s.contains(&sym("y")));
    assert!(!s.contains(&sym("z")));
    assert_eq!(s.members(), vec![sym("x"), sym("y")]);
}

#[test]
fn the_literal_one_is_never_a_member() {
    let mut s = CommonTerms::new();
    assert!(!s.insert(num(1.0)));
    assert_eq!(s.len(), 0);
    assert!(!s.contains(&num(1.0)));
    assert!(s.insert(num(2.0)));
    assert!(s.insert(num(-1.0)));
    assert_eq!(s.members(), vec![num(2.0), num(-1.0)]);
}

#[test]
fn compound_expressions_are_members_too() {
    let sine = op(Operation::Sin(sym("q")));
    let mut s = CommonTerms::new();
    assert!(s.insert(sine.duplicate()));
    assert!(s.contains(&sine));
    assert!(!s.contains(&op(Operation::Cos(sym("q")))));
    assert!(!s.contains(&op(Operation::Sin(sym("p")))));
    assert!(s.insert(op(Operation::Sin(sym("q")))));
    assert_eq!(s.len(), 1);
}

#[test]
fn members_that_share_a_bucket_are_told_apart() {
    let names = ["a", "c", "e", "g", "i", "k", "m", "o", "q", "s", "u", "w", "y"];
    let mut s = CommonTerms::new();
    for n in names {
        assert_eq!(bucket_of(&sym(n)), 1);
        assert!(s.insert(sym(n)));
    }
    assert_eq!(s.len(), names.len());
    for n in names {
        assert!(s.contains(&sym(n)));
    }
    assert!(!s.contains(&sym("b")));
    assert!(!s.contains(&sym("aa")));
}

#[test]
fn buckets_are_chosen_by_a_coarse_hash() {
    assert_eq!(BUCKETS, 16);
    assert_eq!(bucket_of(&sym("")), 0);
    assert_eq!(bucket_of(&sym("a")), 1);
    assert_eq!(bucket_of(&sym("b")), 0);
    // 'c' = 0x63, 'o' = 0x6f, 's' = 0x73, '(' = 0x28
    assert_eq!(bucket_of(&op(Operation::Cos(sym("x")))), 1 + 2 + 0 + 8);
    assert_eq!(bucket_of(&sym("cos(")), 11);
    assert_eq!(bucket_of(&num(1.0)), 0xF);
    assert_eq!(bucket_of(&num(2.0)), 0);
    assert_eq!(bucket_of(&num(-2.0)), 0);
    assert_eq!(bucket_of(&Sym::pi()), 0);
    for b in [0u32, 1, 0x0100_0000, 0x0F00_0000, 0xFFFF_FFFF, 0x7F80_0000] {
        assert!(bucket_of(&Sym::Number(b)) < 16);
        assert_eq!(bucket_of(&Sym::Number(b)), ((b >> 24) & 15) as usize);
    }
}

#[test]
fn combine_holds_the_members_of_both() {
    let a = set_of(vec![sym("x"), sym("y")]);
    let b = set_of(vec![sym("y"), sym("z"), num(2.0)]);
    let c = a.combine(&b);
    assert_eq!(c.members(), vec![sym("x"), sym("y"), sym("y"), sym("z"), num(2.0)]);
    assert_eq!(c.len(), a.len() + b.len());
    assert!(c.contains(&sym("y")));
    assert!(c.contains(&num(2.0)));
    assert!(!c.contains(&sym("w")));
    assert_eq!(
        b.combine(&a).members(),
        vec![sym("y"), sym("z"), num(2.0), sym("x"), sym("y")]
    );
    assert_eq!(a.combine(&a).members(), vec![sym("x"), sym("y"), sym("x"), sym("y")]);
    assert_eq!(a.combine(&a).union(&a).members(), vec![sym("x"), sym("y")]);
    assert_eq!(a.members(), vec![sym("x"), sym("y")]);
    assert_eq!(c.duplicate().members(), c.members());
    assert_eq!(a.combine(&CommonTerms::new()).members(), a.members());
    assert_eq!(CommonTerms::new().combine(&a).members(), a.members());
}

#[test]
fn union_holds_the_members_that_both_have() {
    let a = set_of(vec![sym("x"), sym("y"), sym("w")]);
    let b = set_of(vec![sym("y"), sym("z"), sym("x")]);
    assert_eq!(a.union(&b).members(), vec![sym("x"), sym("y")]);
    assert_eq!(b.union(&a).members(), vec![sym("y"), sym("x")]);
    assert!(a.union(&CommonTerms::new()).is_empty());
    assert!(CommonTerms::new().union(&a).is_empty());
    assert_eq!(a.union(&a).members(), a.members());
}

#[test]
fn subtract_holds_the_members_that_the_other_lacks() {
    let a = set_of(vec![sym("x"), sym("y"), sym("w")]);
    let b = set_of(vec![sym("y"), sym("z")]);
    assert_eq!(a.subtract(&b).members(), vec![sym("x"), sym("w")]);
    assert_eq!(b.subtract(&a).members(), vec![sym("z")]);
    assert_eq!(a.subtract(&CommonTerms::new()).members(), a.members());
    assert!(a.subtract(&a).is_empty());
    assert!(CommonTerms::new().subtract(&a).is_empty());
}

#[test]
fn what_two_sets_share_is_in_both() {
    let a = set_of(vec![sym("x"), sym("y"), num(2.0), sym("w")]);
    let b = set_of(vec![num(2.0), sym("y"), sym("z")]);
    let shared = a.union(&b);
    let left = a.subtract(&b);
    for x in [sym("x"), sym("y"), sym("z"), sym("w"), num(2.0), num(1.0), num(3.0)] {
        assert_eq!(shared.contains(&x), a.contains(&x) && b.contains(&x));
        assert_eq!(left.contains(&x), a.contains(&x) && !b.contains(&x));
        assert_eq!(a.combine(&b).contains(&x), a.contains(&x) || b.contains(&x));
    }
    assert!(!a.contains(&num(1.0)));
}

#[test]
fn a_copy_has_the_same_members() {
    let a = set_of(vec![sym("x"), num(3.0), op(Operation::Sqrt(sym("y")))]);
    let b = a.duplicate();
    assert_eq!(a.members(), b.members());
    assert!(b.contains(&num(3.0)));
    assert_eq!(b.len(), 3);
}
