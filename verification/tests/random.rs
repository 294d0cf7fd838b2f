use robotics::canon::canonicalize;
use robotics::opt::{Opt, OptInner};
use robotics::syms::{Operation, Sym};

fn next(state: &mut u64) -> u32 {
    *state = state.wrapping_mul(6364136223846793005).wrapping_add(1442695040888963407);
    (*state >> 33) as u32
}

fn op(o: Operation) -> Sym {
    Sym::Operation(Box::new(o))
}

fn leaf(state: &mut u64) -> Sym {
    let names = ["x", "y", "z", "q1", "q2", "a"];
    let values = [0f32, 1.0, -1.0, 2.0, 0.5, 3.0, -0.0, -2.5];
    match next(state) % 10 {
        0..=4 => Sym::Identifier(names[(next(state) % 6) as usize]),
        5..=8 => Sym::Number(values[(next(state) % 8) as usize].to_bits()),
        _ => Sym::pi(),
    }
}

fn list(state: &mut u64, depth: u32, marks: bool) -> Vec<Sym> {
    let n = next(state) % 4;
    (0..n).map(|_| tree(state, depth, marks)).collect()
}

fn tree(state: &mut u64, depth: u32, marks: bool) -> Sym {
    if depth == 0 {
        return leaf(state);
    }
    let d = depth - 1;
    match next(state) % 14 {
        0 => op(Operation::Sqrt(tree(state, d, marks))),
        1 | 2 => op(Operation::Add(tree(state, d, marks), tree(state, d, marks))),
        3 => op(Operation::Sum(list(state, d, marks))),
        4 => op(Operation::Sub(tree(state, d, marks), tree(state, d, marks))),
        5 => op(Operation::UnSub(tree(state, d, marks))),
        6 => op(Operation::Div(tree(state, d, marks), tree(state, d, marks))),
        7 | 8 => op(Operation::Mul(tree(state, d, marks), tree(state, d, marks))),
        9 => op(Operation::Prod(list(state, d, marks))),
        10 => op(Operation::Cos(tree(state, d, marks))),
        11 => op(Operation::Sin(tree(state, d, marks))),
        12 if marks => op(Operation::Nop(tree(state, d, marks))),
        _ => leaf(state),
    }
}

fn built(state: &mut u64, depth: u32) -> Sym {
    if depth == 0 {
        return leaf(state);
    }
    let d = depth - 1;
    match next(state) % 8 {
        0 => built(state, d).add(built(state, d)),
        1 => built(state, d).sub(built(state, d)),
        2 | 3 => built(state, d).mul(built(state, d)),
        4 => built(state, d).div(built(state, d)),
        5 => built(state, d).sine(),
        6 => built(state, d).cosine(),
        _ => leaf(state),
    }
}

fn is_marked(s: &Sym) -> bool {
    matches!(s, Sym::Operation(o) if matches!(**o, Operation::Nop(_)))
}

#[test]
fn what_the_operators_build_is_folded() {
    let mut state: u64 = 11;
    for _ in 0..4000 {
        let e = built(&mut state, 4);
        assert!(e.is_folded(), "{}", e.to_text());
        assert!(!e.holds_remainder());
    }
}

#[test]
fn simplified_expressions_are_fixed_and_folded() {
    let mut state: u64 = 5;
    for _ in 0..1500 {
        let e = tree(&mut state, 4, true);
        let r = e.duplicate().opt();
        assert!(r.is_folded(), "{} => {}", e.to_text(), r.to_text());
        assert!(!r.holds_remainder());
        let mut pass = r.duplicate();
        pass.opt_inner();
        assert_eq!(pass, r, "{} => {}", e.to_text(), r.to_text());
        assert_eq!(r.duplicate().opt(), r);
    }
}

#[test]
fn one_pass_leaves_an_expression_folded() {
    let mut state: u64 = 6;
    for _ in 0..1500 {
        let mut e = tree(&mut state, 4, true);
        e.opt_inner();
        assert!(e.is_folded(), "{}", e.to_text());
    }
}

#[test]
fn the_passes_come_to_rest() {
    let mut state: u64 = 7;
    for _ in 0..1500 {
        let e = tree(&mut state, 4, false);
        let r = e.duplicate().opt();
        assert!(!is_marked(&r), "{} => {}", e.to_text(), r.to_text());
        assert!(!r.holds_mark());
        assert!(!r.holds_sum_of_zeros(), "{} => {}", e.to_text(), r.to_text());
    }
    for _ in 0..1500 {
        let e = built(&mut state, 5);
        assert!(!e.holds_mark());
        let r = e.duplicate().opt();
        assert!(!is_marked(&r), "{} => {}", e.to_text(), r.to_text());
    }
}

#[test]
fn canonical_forms_of_random_expressions() {
    let mut state: u64 = 8;
    for _ in 0..1500 {
        let a = tree(&mut state, 3, true);
        let b = tree(&mut state, 3, true);
        let once = canonicalize(a.duplicate());
        assert_eq!(canonicalize(once.duplicate()), once);
        let ab = canonicalize(a.duplicate().add(b.duplicate()));
        let ba = canonicalize(b.duplicate().add(a.duplicate()));
        assert_eq!(ab, ba, "{} and {}", a.to_text(), b.to_text());
    }
}
