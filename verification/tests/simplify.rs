use robotics::arith::SignInversion;
use robotics::decore::ToTex;
use robotics::opt::{is_atomic, is_unsub, is_zero, is_zero_sym, opt_trig, Opt, OptInner, PASS_LIMIT};
use robotics::syms::{Operation, Sym};
use robotics::terms::CommonTerms;

fn num(x: f32) -> Sym {
    Sym::Number(x.to_bits())
}

fn sym(name: &'static str) -> Sym {
    Sym::Identifier(name)
}

fn op(o: Operation) -> Sym {
    Sym::Operation(Box::new(o))
}

fn neg(s: Sym) -> Sym {
    op(Operation::UnSub(s))
}

fn sin(s: Sym) -> Sym {
    op(Operation::Sin(s))
}

fn cos(s: Sym) -> Sym {
    op(Operation::Cos(s))
}

fn samples() -> Vec<Sym> {
    let x = || sym("x");
    let y = || sym("y");
    let z = || sym("z");
    vec![
        num(3.0),
        x(),
        Sym::pi(),
        x().mul(y()),
        x().mul(y()).add(x().mul(z())),
        x().mul(x()).add(x()),
        x().add(y()).add(z().add(sym("w"))),
        sin(sym("q1")).mul(cos(sym("q2"))).add(cos(sym("q1")).mul(sin(sym("q2")))),
        cos(sym("q1")).mul(cos(sym("q2"))).sub(sin(sym("q1")).mul(sin(sym("q2")))),
        x().mul(y()).div(x().mul(z())),
        x().mul(num(0.5)).add(x().mul(num(0.5))),
        num(2.0).mul(x()).add(num(3.0).mul(x())),
        op(Operation::Add(num(3.0), num(4.0))),
        op(Operation::Sum(vec![num(1.0), x(), num(2.0), num(0.0), sym("a")])),
        op(Operation::Prod(vec![num(2.0), x(), num(-3.0), neg(sym("a"))])),
        op(Operation::Nop(op(Operation::Add(num(1.0), num(2.0))))),
        op(Operation::Sqrt(op(Operation::Add(x(), num(0.0))))),
        op(Operation::Add(op(Operation::Mul(num(0.0), x())), op(Operation::Sub(y(), y())))),
        op(Operation::Div(op(Operation::Add(x(), y())), op(Operation::Add(y(), x())))),
        op(Operation::Sub(neg(x()), y())),
        op(Operation::Sub(x(), neg(y()))),
        op(Operation::Mul(op(Operation::Add(x(), y())), op(Operation::Add(x(), y())))),
        op(Operation::Add(op(Operation::Div(x(), y())), op(Operation::Div(x(), z())))),
        op(Operation::Sum(vec![])),
        op(Operation::Prod(vec![])),
        op(Operation::Sum(vec![x()])),
        op(Operation::Prod(vec![neg(x())])),
        op(Operation::Cos(op(Operation::Div(Sym::pi(), num(2.0))))),
        op(Operation::Mul(num(f32::NAN), x())),
        op(Operation::Add(num(f32::INFINITY), op(Operation::Mul(x(), num(f32::MAX))))),
    ]
}

#[test]
fn simplifying_twice_changes_nothing_more() {
    for e in samples() {
        let once = e.duplicate().opt();
        let twice = once.duplicate().opt();
        assert_eq!(twice, once, "{}", e.to_text());
        let mut pass = once.duplicate();
        pass.opt_inner();
        assert_eq!(pass, once, "{}", e.to_text());
    }
}

#[test]
fn literals_fold() {
    assert_eq!(num(3.0).add(num(4.0)).opt(), num(7.0));
    assert_eq!(num(2.0).mul(num(0.0)).opt(), num(0.0));
    assert_eq!(op(Operation::Add(num(3.0), num(4.0))).opt(), num(7.0));
    assert_eq!(op(Operation::Mul(num(2.0), num(0.0))).opt(), num(0.0));
    assert_eq!(op(Operation::Sub(num(3.0), num(4.0))).opt(), num(-1.0));
    assert_eq!(op(Operation::Div(num(3.0), num(4.0))).opt(), num(0.75));
    assert_eq!(op(Operation::Mul(num(3.0), num(4.0))).opt(), num(12.0));
    assert_eq!(
        op(Operation::Add(op(Operation::Mul(num(2.0), num(3.0))), num(1.0))).opt(),
        num(7.0)
    );
}

#[test]
fn identities_are_eliminated() {
    assert_eq!(sym("x").mul(num(1.0)).opt(), sym("x"));
    assert_eq!(sym("x").add(num(0.0)).opt(), sym("x"));
    assert_eq!(op(Operation::Mul(sym("x"), num(1.0))).opt(), sym("x"));
    assert_eq!(op(Operation::Mul(num(1.0), sym("x"))).opt(), sym("x"));
    assert_eq!(op(Operation::Add(sym("x"), num(0.0))).opt(), sym("x"));
    assert_eq!(op(Operation::Add(num(0.0), sym("x"))).opt(), sym("x"));
    assert_eq!(op(Operation::Sub(sym("x"), num(0.0))).opt(), sym("x"));
    assert_eq!(op(Operation::Sub(num(0.0), sym("x"))).opt(), neg(sym("x")));
    assert_eq!(op(Operation::Div(sym("x"), num(1.0))).opt(), sym("x"));
    assert_eq!(op(Operation::Mul(sym("x"), num(0.0))).opt(), num(0.0));
    assert_eq!(op(Operation::Div(num(0.0), sym("x"))).opt(), num(0.0));
}

#[test]
fn an_expression_minus_itself_is_zero() {
    let r = sym("x").sub(sym("x")).opt();
    assert_eq!(r, num(-0.0));
    match r {
        Sym::Number(b) => assert_eq!(f32::from_bits(b), 0.0),
        other => panic!("{:?}", other),
    }
    assert_eq!(op(Operation::Sub(sym("x"), sym("x"))).opt(), num(-0.0));
    let p = || op(Operation::Mul(sym("y"), sym("x")));
    let q = || op(Operation::Mul(sym("x"), sym("y")));
    assert_eq!(op(Operation::Sub(p(), q())).opt(), num(-0.0));
    assert_eq!(op(Operation::Add(sym("x"), neg(sym("x")))).opt(), num(-0.0));
}

#[test]
fn sine_of_a_sum_is_recognised() {
    let a = || sym("q1");
    let b = || sym("q2");
    let e = a().sine().mul(b().cosine()).add(a().cosine().mul(b().sine()));
    assert_eq!(e.opt(), sin(op(Operation::Add(a(), b()))));
    let swapped = b().cosine().mul(a().sine()).add(b().sine().mul(a().cosine()));
    assert_eq!(swapped.opt(), sin(op(Operation::Add(a(), b()))));
    let other_way = a().cosine().mul(b().sine()).add(a().sine().mul(b().cosine()));
    assert_eq!(other_way.opt(), sin(op(Operation::Add(a(), b()))));
}

#[test]
fn the_other_addition_theorems_are_recognised() {
    let a = || sym("q1");
    let b = || sym("q2");
    let e = a().sine().mul(b().cosine()).sub(a().cosine().mul(b().sine()));
    assert_eq!(e.opt(), sin(op(Operation::Sub(a(), b()))));
    let e = a().cosine().mul(b().cosine()).sub(a().sine().mul(b().sine()));
    assert_eq!(e.opt(), cos(op(Operation::Add(a(), b()))));
    let e = a().cosine().mul(b().cosine()).add(a().sine().mul(b().sine()));
    assert_eq!(e.opt(), cos(op(Operation::Sub(a(), b()))));
    let e = a().sine().mul(b().sine()).add(a().cosine().mul(b().cosine()));
    assert_eq!(e.opt(), cos(op(Operation::Sub(a(), b()))));
    let pairs = op(Operation::Add(
        op(Operation::Prod(vec![sin(a()), cos(b())])),
        op(Operation::Prod(vec![cos(a()), sin(b())])),
    ));
    assert_eq!(pairs.opt(), sin(op(Operation::Add(a(), b()))));
}

#[test]
fn products_that_only_look_alike_are_left_alone() {
    let a = || sym("q1");
    let b = || sym("q2");
    let c = || sym("q3");
    let e = a().sine().mul(b().cosine()).add(a().cosine().mul(c().sine()));
    let r = e.opt();
    assert_ne!(r, sin(op(Operation::Add(a(), b()))));
    assert_eq!(r.to_text(), "((cos(q1)*sin(q3))+(cos(q2)*sin(q1)))");
    let e = a().sine().mul(b().sine()).sub(a().cosine().mul(b().cosine()));
    assert_eq!(e.opt().to_text(), "((sin(q1)*sin(q2))-(cos(q1)*cos(q2)))");
}

#[test]
fn opt_trig_rewrites_in_place() {
    let a = || sym("q1");
    let b = || sym("q2");
    let mut o = Operation::Add(
        op(Operation::Mul(sin(a()), cos(b()))),
        op(Operation::Mul(cos(a()), sin(b()))),
    );
    assert!(opt_trig(&mut o));
    assert_eq!(o, Operation::Sin(op(Operation::Add(a(), b()))));
    let mut o = Operation::Sub(
        op(Operation::Mul(cos(a()), cos(b()))),
        op(Operation::Mul(sin(b()), sin(a()))),
    );
    assert!(opt_trig(&mut o));
    assert_eq!(o, Operation::Cos(op(Operation::Add(a(), b()))));
    let mut o = Operation::Add(sin(a()), cos(b()));
    assert!(!opt_trig(&mut o));
    assert_eq!(o, Operation::Add(sin(a()), cos(b())));
    let mut o = Operation::Mul(
        op(Operation::Mul(sin(a()), cos(b()))),
        op(Operation::Mul(cos(a()), sin(b()))),
    );
    assert!(!opt_trig(&mut o));
    // The angle is left as it stands; the next pass folds it.
    let mut o = Operation::Sub(
        op(Operation::Mul(sin(a()), cos(a()))),
        op(Operation::Mul(cos(a()), sin(a()))),
    );
    assert!(opt_trig(&mut o));
    assert_eq!(o, Operation::Sin(op(Operation::Sub(a(), a()))));
    let mut o = Operation::Add(
        op(Operation::Mul(sin(a()), cos(a()))),
        op(Operation::Mul(cos(a()), sin(a()))),
    );
    assert!(opt_trig(&mut o));
    assert_eq!(o, Operation::Sin(op(Operation::Add(a(), a()))));
    assert_eq!(op(o).opt(), sin(op(Operation::Mul(a(), num(2.0)))));
    let mut o = Operation::Add(
        op(Operation::Mul(sin(b()), cos(a()))),
        op(Operation::Mul(cos(b()), sin(a()))),
    );
    assert!(opt_trig(&mut o));
    assert_eq!(o, Operation::Sin(op(Operation::Add(b(), a()))));
}

#[test]
fn sine_and_cosine_of_known_angles_are_exact() {
    assert_eq!(cos(Sym::pi()).opt(), num(-1.0));
    assert_eq!(sin(num(0.0)).opt(), num(0.0));
    assert_eq!(sin(Sym::pi()).opt(), num(0.0));
    assert_eq!(cos(num(0.0)).opt(), num(1.0));
    assert_eq!(sin(op(Operation::Div(Sym::pi(), num(2.0)))).opt(), num(1.0));
    assert_eq!(cos(op(Operation::Div(Sym::pi(), num(2.0)))).opt(), num(0.0));
    assert_eq!(sin(neg(op(Operation::Div(Sym::pi(), num(2.0))))).opt(), num(-1.0));
    assert_eq!(cos(neg(Sym::pi())).opt(), num(-1.0));
    assert_eq!(cos(op(Operation::Sub(sym("x"), sym("x")))).opt(), num(1.0));
    assert_eq!(sin(op(Operation::Add(Sym::pi(), num(0.0)))).opt(), num(0.0));
    assert_eq!(sin(num(1.0)).opt(), sin(num(1.0)));
}

#[test]
fn shared_factors_come_to_the_front() {
    let x = || sym("x");
    let y = || sym("y");
    let z = || sym("z");
    assert_eq!(x().mul(y()).add(x().mul(z())).opt().to_text(), "(x*(y+z))");
    assert_eq!(x().mul(y()).sub(x().mul(z())).opt().to_text(), "(x*(y-z))");
    assert_eq!(x().mul(x()).add(x()).opt().to_text(), "(x*(x+1))");
    assert_eq!(
        x().mul(x()).mul(y()).add(x().mul(x()).mul(y()).mul(z())).opt().to_text(),
        "(x*x*y*(()+(z)))"
    );
    assert_eq!(
        sin(x()).mul(sym("a")).add(sin(x()).mul(sym("b"))).opt().to_text(),
        "((a+b)*sin(x))"
    );
    assert_eq!(num(2.0).mul(x()).add(num(3.0).mul(x())).opt().to_text(), "(x*5)");
    assert_eq!(
        x().mul(num(0.5)).add(x().mul(num(0.5))).opt(),
        op(Operation::Prod(vec![x(), num(0.5), num(2.0)]))
    );
    assert_eq!(
        op(Operation::Sum(vec![x().mul(y()), x().mul(z()), x().mul(sym("w"))])).opt().to_text(),
        "(x*(w+y+z))"
    );
    assert_eq!(x().add(y()).opt(), op(Operation::Add(x(), y())));
    assert_eq!(y().add(x()).opt(), op(Operation::Add(x(), y())));
}

#[test]
fn shared_factors_of_a_quotient_cancel() {
    let x = || sym("x");
    let y = || sym("y");
    let z = || sym("z");
    assert_eq!(x().mul(y()).div(x().mul(z())).opt(), op(Operation::Div(y(), z())));
    assert_eq!(x().mul(y()).div(x()).opt(), y());
    assert_eq!(x().div(x().mul(y())).opt(), op(Operation::Div(num(1.0), y())));
    assert_eq!(op(Operation::Div(x(), x())).opt(), num(1.0));
    assert_eq!(
        op(Operation::Div(op(Operation::Add(x(), y())), op(Operation::Add(y(), x())))).opt(),
        num(1.0)
    );
    assert_eq!(x().div(y()).opt(), op(Operation::Div(x(), y())));
}

#[test]
fn a_product_stays_a_product_with_one_sign_in_front() {
    let x = || sym("x");
    assert_eq!(
        op(Operation::Prod(vec![num(2.0), x(), num(-3.0), neg(sym("a"))])).opt(),
        neg(op(Operation::Prod(vec![sym("a"), x(), num(-3.0), num(2.0)])))
    );
    assert_eq!(
        op(Operation::Prod(vec![neg(x()), num(3.0), neg(sym("a"))])).opt(),
        op(Operation::Prod(vec![sym("a"), x(), num(3.0)]))
    );
    assert_eq!(
        op(Operation::Prod(vec![neg(x()), num(-1.0), neg(sym("a")), Sym::pi()])).opt(),
        neg(op(Operation::Prod(vec![sym("a"), x(), Sym::pi()])))
    );
    assert_eq!(op(Operation::Prod(vec![x(), num(0.0), sym("a")])).opt(), num(0.0));
    assert_eq!(op(Operation::Prod(vec![x(), num(1.0)])).opt(), op(Operation::Prod(vec![x()])));
    assert_eq!(op(Operation::Prod(vec![x()])).opt(), op(Operation::Prod(vec![x()])));
    assert_eq!(op(Operation::Prod(vec![num(1.0), num(1.0)])).opt(), op(Operation::Prod(vec![])));
    assert_eq!(op(Operation::Prod(vec![])).opt(), op(Operation::Prod(vec![])));
    assert_eq!(
        op(Operation::Prod(vec![num(-1.0), x()])).opt(),
        neg(op(Operation::Prod(vec![x()])))
    );
    assert_eq!(
        op(Operation::Prod(vec![num(0.5), x(), num(2.0)])).opt(),
        op(Operation::Prod(vec![x(), num(0.5), num(2.0)]))
    );
    assert_eq!(neg(x()).mul(neg(sym("y"))).opt(), op(Operation::Mul(x(), sym("y"))));
    assert_eq!(
        op(Operation::Mul(neg(x()), sym("y"))).opt(),
        neg(op(Operation::Mul(x(), sym("y"))))
    );
    assert_eq!(
        op(Operation::Mul(op(Operation::Mul(sym("d"), sym("c"))), op(Operation::Mul(sym("b"), sym("a"))))).opt(),
        op(Operation::Prod(vec![sym("a"), sym("b"), sym("c"), sym("d")]))
    );
}

#[test]
fn a_sum_loses_its_zeros_and_keeps_one_literal() {
    let x = || sym("x");
    assert_eq!(
        op(Operation::Sum(vec![num(1.0), x(), num(2.0), num(0.0), sym("a")])).opt(),
        op(Operation::Sum(vec![sym("a"), x(), num(3.0)]))
    );
    assert_eq!(op(Operation::Sum(vec![])).opt(), num(0.0));
    assert_eq!(op(Operation::Sum(vec![x()])).opt(), x());
    assert_eq!(op(Operation::Sum(vec![num(0.0), x(), neg(num(0.0))])).opt(), x());
    assert_eq!(op(Operation::Sum(vec![num(1.0), num(-1.0)])).opt(), num(0.0));
    assert_eq!(
        op(Operation::Sum(vec![x(), op(Operation::Mul(sym("y"), num(0.0)))])).opt(),
        x()
    );
    assert_eq!(
        x().add(sym("y")).add(sym("z").add(sym("w"))).opt(),
        op(Operation::Sum(vec![sym("w"), x(), sym("y"), sym("z")]))
    );
}

#[test]
fn negations_move_out_of_sums_and_differences() {
    let x = || sym("x");
    let y = || sym("y");
    assert_eq!(op(Operation::Add(x(), neg(y()))).opt(), op(Operation::Sub(x(), y())));
    assert_eq!(op(Operation::Add(neg(x()), y())).opt(), op(Operation::Sub(y(), x())));
    assert_eq!(op(Operation::Sub(x(), neg(y()))).opt(), op(Operation::Add(x(), y())));
    assert_eq!(op(Operation::Sub(neg(x()), y())).opt(), neg(op(Operation::Add(x(), y()))));
    assert_eq!(neg(neg(x())).opt(), x());
    assert_eq!(neg(num(2.0)).opt(), num(-2.0));
    assert_eq!(neg(op(Operation::Add(x(), num(0.0)))).opt(), neg(x()));
}

#[test]
fn what_is_marked_as_reduced_is_left_alone() {
    let marked = op(Operation::Nop(op(Operation::Add(num(1.0), num(2.0)))));
    assert_eq!(marked.duplicate().opt(), marked);
    let inside = op(Operation::Add(op(Operation::Nop(num(0.0))), sym("x")));
    assert_eq!(inside.opt(), sym("x"));
    let kept = op(Operation::Add(marked.duplicate(), sym("x")));
    assert_eq!(kept.opt(), op(Operation::Add(sym("x"), marked)));
}

#[test]
fn zero_is_seen_by_its_form() {
    assert!(is_zero_sym(&num(0.0)));
    assert!(is_zero_sym(&num(-0.0)));
    assert!(!is_zero_sym(&num(1.0)));
    assert!(!is_zero_sym(&sym("x")));
    assert!(is_zero_sym(&neg(num(0.0))));
    assert!(is_zero_sym(&op(Operation::Nop(neg(num(0.0))))));
    assert!(is_zero_sym(&op(Operation::Prod(vec![sym("x"), num(0.0)]))));
    assert!(!is_zero_sym(&op(Operation::Prod(vec![sym("x"), num(2.0)]))));
    assert!(!is_zero_sym(&op(Operation::Prod(vec![]))));
    assert!(is_zero_sym(&op(Operation::Sum(vec![num(0.0), neg(num(0.0))]))));
    assert!(!is_zero_sym(&op(Operation::Sum(vec![num(0.0), sym("x")]))));
    assert!(is_zero_sym(&op(Operation::Sum(vec![]))));
    assert!(!is_zero_sym(&op(Operation::Add(num(0.0), num(0.0)))));
    assert!(is_zero(&Operation::UnSub(num(0.0))));
    assert!(!is_zero(&Operation::Sin(num(0.0))));
}

#[test]
fn atomic_expressions_and_negations_are_told() {
    assert!(is_atomic(&Operation::Sin(sym("x"))));
    assert!(is_atomic(&Operation::Cos(sym("x"))));
    assert!(is_atomic(&Operation::Sqrt(sym("x"))));
    assert!(is_atomic(&Operation::UnSub(sym("x"))));
    assert!(!is_atomic(&Operation::Add(sym("x"), sym("y"))));
    assert!(!is_atomic(&Operation::Nop(sym("x"))));
    assert!(!is_atomic(&Operation::Prod(vec![])));
    assert_eq!(is_unsub(&neg(sym("x"))), Some(sym("x")));
    assert_eq!(is_unsub(&sym("x")), None);
    assert_eq!(is_unsub(&num(-1.0)), None);
    assert_eq!(is_unsub(&sin(sym("x"))), None);
}

#[test]
fn the_factors_of_an_expression() {
    let x = || sym("x");
    let y = || sym("y");
    let z = || sym("z");
    assert_eq!(x().longest_common().members(), vec![x()]);
    assert_eq!(num(2.0).longest_common().members(), vec![num(2.0)]);
    assert_eq!(num(1.0).longest_common().members(), Vec::<Sym>::new());
    assert_eq!(sin(x()).longest_common().members(), vec![sin(x())]);
    assert_eq!(neg(x()).longest_common().members(), vec![neg(x())]);
    assert_eq!(x().mul(y()).longest_common().members(), vec![x(), y()]);
    assert_eq!(x().mul(x()).longest_common().members(), vec![x(), x()]);
    assert_eq!(x().mul(x()).add(x()).longest_common().members(), vec![x()]);
    assert_eq!(x().mul(y()).add(z().mul(x())).longest_common().members(), vec![x()]);
    assert_eq!(x().mul(y()).sub(z()).longest_common().members(), Vec::<Sym>::new());
    assert_eq!(x().mul(y()).div(y().mul(z())).longest_common().members(), vec![x()]);
    assert_eq!(
        op(Operation::Prod(vec![x(), y(), sin(z())])).longest_common().members(),
        vec![x(), y(), sin(z())]
    );
    assert_eq!(
        op(Operation::Sum(vec![x().mul(y()), y().mul(z()), y()])).longest_common().members(),
        vec![y()]
    );
    assert_eq!(op(Operation::Sum(vec![])).longest_common().members(), Vec::<Sym>::new());
    assert_eq!(op(Operation::Nop(x())).longest_common().members(), Vec::<Sym>::new());
    assert_eq!(x().rem(y()).longest_common().members(), Vec::<Sym>::new());
    assert_eq!(Operation::Mul(x(), y()).longest_common().members(), vec![x(), y()]);
}

#[test]
fn factors_are_taken_out_once() {
    let x = || sym("x");
    let y = || sym("y");
    let z = || sym("z");
    let mut only_x = CommonTerms::new();
    only_x.insert(x());
    let mut e = x().mul(y()).add(x().mul(z()));
    e.replace_common(&only_x);
    assert_eq!(
        e,
        op(Operation::Add(
            op(Operation::Mul(num(1.0), y())),
            op(Operation::Mul(num(1.0), z()))
        ))
    );
    let mut e = x().mul(x());
    e.replace_common(&only_x);
    assert_eq!(e, op(Operation::Mul(num(1.0), x())));
    let mut e = x();
    e.replace_common(&only_x);
    assert_eq!(e, num(1.0));
    let mut e = y();
    e.replace_common(&only_x);
    assert_eq!(e, y());
    let mut e = x().mul(y()).div(x().mul(z()));
    e.replace_common(&only_x);
    assert_eq!(
        e,
        op(Operation::Div(op(Operation::Mul(num(1.0), y())), x().mul(z())))
    );
    let mut e = op(Operation::Prod(vec![x(), y(), x()]));
    e.replace_common(&only_x);
    assert_eq!(e, op(Operation::Prod(vec![num(1.0), y(), x()])));
    let mut e = op(Operation::Sum(vec![x(), x().mul(y())]));
    e.replace_common(&only_x);
    assert_eq!(
        e,
        op(Operation::Sum(vec![num(1.0), op(Operation::Mul(num(1.0), y()))]))
    );
    let mut e = x().mul(y());
    e.replace_common(&CommonTerms::new());
    assert_eq!(e, x().mul(y()));
    let mut sine = CommonTerms::new();
    sine.insert(sin(x()));
    let mut e = sin(x()).mul(y());
    e.replace_common(&sine);
    assert_eq!(e, op(Operation::Mul(num(1.0), y())));
    let mut o = Operation::Sin(x());
    o.replace_common(&sine);
    assert_eq!(o, Operation::Nop(num(1.0)));
    let mut o = Operation::Mul(x(), y());
    o.replace_common(&only_x);
    assert_eq!(o, Operation::Mul(num(1.0), y()));
}

#[test]
fn one_pass_and_the_whole_simplification() {
    let x = || sym("x");
    let mut e = op(Operation::Add(op(Operation::Mul(x(), num(1.0))), num(0.0)));
    e.opt_inner();
    assert_eq!(e, x());
    let mut o = Operation::Add(op(Operation::Mul(x(), num(1.0))), num(0.0));
    o.opt_inner();
    assert_eq!(o, Operation::Nop(x()));
    let mut o = Operation::Add(x(), sym("y"));
    o.opt_inner();
    assert_eq!(o, Operation::Add(x(), sym("y")));
    assert_eq!(Operation::Add(x(), num(0.0)).opt(), Operation::Nop(x()));
    assert_eq!(
        Operation::Add(sym("y"), x()).opt(),
        Operation::Add(x(), sym("y"))
    );
    assert!(PASS_LIMIT >= 8);
}

#[test]
fn one_pass_takes_a_shared_factor_out_and_leaves_no_one() {
    let x = || sym("x");
    let y = || sym("y");
    let z = || sym("z");
    let sum = || Operation::Add(op(Operation::Mul(x(), y())), op(Operation::Mul(x(), z())));
    let mut o = sum();
    o.opt_inner();
    assert_eq!(o, Operation::Prod(vec![x(), op(Operation::Add(y(), z()))]));
    let mut e = op(sum());
    e.opt_inner();
    assert_eq!(e, op(Operation::Prod(vec![x(), op(Operation::Add(y(), z()))])));
    e.opt_inner();
    assert_eq!(e, op(Operation::Prod(vec![x(), op(Operation::Add(y(), z()))])));
    let mut o = Operation::Add(op(Operation::Mul(x(), z())), op(Operation::Mul(x(), y())));
    o.opt_inner();
    assert_eq!(o, Operation::Prod(vec![x(), op(Operation::Add(y(), z()))]));
    let mut o = Operation::Sub(op(Operation::Mul(x(), y())), op(Operation::Mul(x(), z())));
    o.opt_inner();
    assert_eq!(o, Operation::Prod(vec![x(), op(Operation::Sub(y(), z()))]));
    let mut o = Operation::Add(op(Operation::Mul(x(), num(2.0))), op(Operation::Mul(x(), num(3.0))));
    o.opt_inner();
    assert_eq!(o, Operation::Prod(vec![x(), num(5.0)]));
    let mut o = Operation::Add(op(Operation::Mul(x(), y())), x());
    o.opt_inner();
    assert_eq!(o, Operation::Prod(vec![x(), op(Operation::Add(num(1.0), y()))]));
    o.opt_inner();
    assert_eq!(o, Operation::Prod(vec![x(), op(Operation::Add(y(), num(1.0)))]));
    let mut o = sum();
    let set = o.longest_common();
    o.replace_common(&set);
    assert_eq!(
        o,
        Operation::Add(op(Operation::Mul(num(1.0), y())), op(Operation::Mul(num(1.0), z())))
    );
}

#[test]
fn marks_and_sums_of_zeros_are_found() {
    let zeros = || op(Operation::Add(num(0.0), num(-0.0)));
    assert!(zeros().holds_sum_of_zeros());
    assert!(op(Operation::Sub(num(0.0), num(0.0))).holds_sum_of_zeros());
    assert!(sin(op(Operation::Prod(vec![sym("x"), zeros()]))).holds_sum_of_zeros());
    assert!(op(Operation::Nop(zeros())).holds_sum_of_zeros());
    assert!(sym("x").rem(zeros()).holds_sum_of_zeros());
    assert!(!op(Operation::Add(num(0.0), sym("x"))).holds_sum_of_zeros());
    assert!(!op(Operation::Mul(num(0.0), num(0.0))).holds_sum_of_zeros());
    assert!(!sym("x").holds_sum_of_zeros());
    assert!(!zeros().opt().holds_sum_of_zeros());
    assert!(op(Operation::Nop(sym("x"))).holds_mark());
    assert!(sin(op(Operation::Sum(vec![sym("y"), op(Operation::Nop(sym("x")))]))).holds_mark());
    assert!(sym("y").rem(op(Operation::Nop(sym("x")))).holds_mark());
    assert!(!sym("x").holds_mark());
    assert!(!sym("x").mul(sym("y")).add(num(2.0)).holds_mark());
    assert!(Operation::Nop(sym("x")).holds_mark());
    assert!(Operation::Add(num(0.0), num(0.0)).holds_sum_of_zeros());
}

#[test]
fn remainders_are_found() {
    assert!(sym("x").rem(sym("y")).holds_remainder());
    assert!(sin(sym("x").rem(sym("y"))).holds_remainder());
    assert!(op(Operation::Sum(vec![sym("a"), sym("x").rem(sym("y"))])).holds_remainder());
    assert!(op(Operation::Nop(sym("x").rem(sym("y")))).holds_remainder());
    assert!(!sym("x").holds_remainder());
    assert!(!sym("x").mul(sym("y")).add(num(2.0)).holds_remainder());
    assert!(Operation::Rem(sym("x"), sym("y")).holds_remainder());
    assert!(!Operation::Prod(vec![sym("x")]).holds_remainder());
}

#[test]
fn simplified_expressions_render_without_empty_groups() {
    for e in samples() {
        let r = e.opt();
        let tex = r.to_tex(None);
        assert!(!tex.contains("{}"), "{}", tex);
        assert!(!tex.is_empty());
    }
}

#[test]
fn passes_stop_at_the_limit() {
    let x = || sym("x");
    assert_eq!(x().opt_within(0), (x(), true));
    let e = || op(Operation::Add(x(), num(0.0)));
    assert_eq!(e().opt_within(1), (x(), true));
    assert_eq!(e().opt_within(64), (x(), true));
    let (stopped, rested) = e().opt_within(0);
    assert!(!rested);
    assert_eq!(stopped, op(Operation::Nop(x())));
    assert_eq!(stopped.duplicate().opt(), stopped);
    assert_eq!(stopped.duplicate().opt_within(0), (stopped.duplicate(), true));
    assert_eq!(stopped.to_text(), "x");
    let deep = || {
        op(Operation::Add(
            op(Operation::Mul(x(), op(Operation::Add(sym("y"), num(0.0))))),
            op(Operation::Mul(x(), sym("z"))),
        ))
    };
    let (full, rested) = deep().opt_within(PASS_LIMIT);
    assert!(rested);
    assert_eq!(full, deep().opt());
    assert_eq!(full.to_text(), "(x*(y+z))");
}
