use robotics::arith::{is_negation_of, SignInversion};
use robotics::decore::ToTex;
use robotics::syms::{all_equal, duplicate_all, same_name, Constant, Operation, Sym};

fn num(x: f32) -> Sym {
    Sym::Number(x.to_bits())
}

fn sym(name: &'static str) -> Sym {
    Sym::Identifier(name)
}

fn op(o: Operation) -> Sym {
    Sym::Operation(Box::new(o))
}

fn neg(s: Sym) -> Sym {
    op(Operation::UnSub(s))
}

#[test]
fn two_literals_become_one() {
    assert_eq!(num(3.0).add(num(4.0)), num(7.0));
    assert_eq!(num(2.0).mul(num(0.0)), num(0.0));
    assert_eq!(num(7.0).sub(num(4.0)), num(3.0));
    assert_eq!(num(1.0).div(num(2.0)), num(0.5));
    assert_eq!(num(0.1).add(num(0.2)), num(0.1 + 0.2));
    assert_eq!(num(1.0).div(num(0.0)), num(f32::INFINITY));
    assert_eq!(num(-1.0).div(num(0.0)), num(f32::NEG_INFINITY));
    assert_eq!(num(3.0).div(num(-2.0)), num(-1.5));
    assert_eq!(num(-3.0).mul(num(-2.0)), num(6.0));
}

#[test]
fn double_negation_cancels() {
    assert_eq!(sym("x").sing_inversion().sing_inversion(), sym("x"));
    assert_eq!(sym("x").sing_inversion(), neg(sym("x")));
    assert_eq!(num(2.0).sing_inversion(), num(-2.0));
    assert_eq!(num(2.0).sing_inversion().sing_inversion(), num(2.0));
    assert_eq!(neg(sym("x")).sing_inversion(), sym("x"));
    assert_eq!(Sym::pi().sing_inversion(), neg(Sym::pi()));
    let product = sym("x").mul(sym("y"));
    assert_eq!(product.duplicate().sing_inversion().sing_inversion(), product);
}

#[test]
fn negative_means_a_sign_in_front() {
    assert!(num(-2.0).negative());
    assert!(!num(2.0).negative());
    assert!(!num(0.0).negative());
    assert!(!num(-0.0).negative());
    assert!(!num(f32::NAN).negative());
    assert!(neg(sym("x")).negative());
    assert!(!sym("x").negative());
    assert!(!Sym::pi().negative());
    assert!(!sym("x").mul(sym("y")).negative());
}

#[test]
fn zero_and_one_leave_the_other_operand() {
    assert_eq!(sym("x").add(num(0.0)), sym("x"));
    assert_eq!(num(0.0).add(sym("x")), sym("x"));
    assert_eq!(sym("x").sub(num(0.0)), sym("x"));
    assert_eq!(sym("x").mul(num(1.0)), sym("x"));
    assert_eq!(num(1.0).mul(sym("x")), sym("x"));
    assert_eq!(sym("x").div(num(1.0)), sym("x"));
    assert_eq!(num(-0.0).add(sym("x")), sym("x"));
}

#[test]
fn zero_times_anything_is_zero() {
    let all = vec![
        num(0.0),
        num(-0.0),
        num(1.0),
        num(-1.0),
        num(3.5),
        num(f32::INFINITY),
        num(f32::NEG_INFINITY),
        num(f32::NAN),
        sym("x"),
        Sym::pi(),
        neg(sym("x")),
        sym("x").mul(sym("y")),
        op(Operation::Sum(vec![])),
    ];
    for s in all {
        assert_eq!(s.clone().mul(num(0.0)), num(0.0), "{:?}", s);
        assert_eq!(num(0.0).mul(s.clone()), num(0.0), "{:?}", s);
        assert!(s.clone().mul(num(-0.0)).is_zero());
        assert!(num(-0.0).mul(s.clone()).is_zero());
        assert_eq!(s.clone().mul(num(1.0)), s);
        assert_eq!(num(1.0).mul(s.clone()), s);
        assert_eq!(s.clone().div(num(1.0)), s);
    }
    assert_eq!(sym("x").mul(num(0.0)), num(0.0));
    assert_eq!(num(0.0).mul(sym("x")), num(0.0));
    assert_eq!(num(0.0).div(sym("x")), num(0.0));
}

#[test]
fn zero_minus_an_expression_is_its_negation() {
    assert_eq!(num(0.0).sub(sym("x")), neg(sym("x")));
    assert_eq!(num(0.0).sub(neg(sym("x"))), sym("x"));
}

#[test]
fn equal_operands_collapse() {
    assert_eq!(sym("x").add(sym("x")), op(Operation::Mul(num(2.0), sym("x"))));
    assert_eq!(sym("x").sub(sym("x")), num(-0.0));
    match sym("x").sub(sym("x")) {
        Sym::Number(b) => assert_eq!(f32::from_bits(b), 0.0),
        other => panic!("{:?}", other),
    }
    assert_eq!(sym("x").add(neg(sym("x"))), num(0.0));
    assert_eq!(neg(sym("x")).add(sym("x")), num(0.0));
    let p = sym("x").mul(sym("y"));
    assert_eq!(p.duplicate().sub(p), num(-0.0));
}

#[test]
fn other_operands_build_a_node() {
    assert_eq!(sym("x").add(sym("y")), op(Operation::Add(sym("x"), sym("y"))));
    assert_eq!(sym("x").sub(sym("y")), op(Operation::Sub(sym("x"), sym("y"))));
    assert_eq!(sym("x").mul(sym("y")), op(Operation::Mul(sym("x"), sym("y"))));
    assert_eq!(sym("x").div(sym("y")), op(Operation::Div(sym("x"), sym("y"))));
    assert_eq!(sym("x").rem(sym("y")), op(Operation::Rem(sym("x"), sym("y"))));
    assert_eq!(num(5.0).rem(num(3.0)), op(Operation::Rem(num(5.0), num(3.0))));
    assert_eq!(Sym::sqrt(sym("x")), op(Operation::Sqrt(sym("x"))));
    assert_eq!(num(2.0).add(sym("y")), op(Operation::Add(num(2.0), sym("y"))));
}

#[test]
fn a_product_carries_one_sign_in_front() {
    let xy = op(Operation::Mul(sym("x"), sym("y")));
    assert_eq!(neg(sym("x")).mul(sym("y")), neg(xy.duplicate()));
    assert_eq!(sym("x").mul(neg(sym("y"))), neg(xy.duplicate()));
    assert_eq!(neg(sym("x")).mul(neg(sym("y"))), xy);
    assert_eq!(num(-1.0).mul(sym("x")), neg(sym("x")));
    assert_eq!(sym("x").mul(num(-1.0)), neg(sym("x")));
    assert_eq!(num(-2.0).mul(sym("x")), neg(op(Operation::Mul(num(2.0), sym("x")))));
    assert_eq!(num(-2.0).mul(neg(sym("x"))), op(Operation::Mul(num(2.0), sym("x"))));
}

#[test]
fn a_quotient_has_no_negative_literal_below() {
    assert_eq!(sym("x").div(num(-2.0)), op(Operation::Div(neg(sym("x")), num(2.0))));
    assert_eq!(neg(sym("x")).div(num(-2.0)), op(Operation::Div(sym("x"), num(2.0))));
    assert_eq!(sym("x").div(num(-1.0)), op(Operation::Div(neg(sym("x")), num(1.0))));
    assert_eq!(num(3.0).div(num(-1.0)), num(-3.0));
    assert_eq!(num(0.0).div(num(0.0)), num(0.0));
    assert_eq!(num(-0.0).div(sym("x")), num(0.0));
    assert_eq!(sym("x").div(num(2.0)), op(Operation::Div(sym("x"), num(2.0))));
}

#[test]
fn sine_and_cosine_are_exact_where_they_are_known() {
    assert_eq!(num(0.0).sine(), num(0.0));
    assert_eq!(num(0.0).cosine(), num(1.0));
    assert_eq!(Sym::pi().sine(), num(0.0));
    assert_eq!(Sym::pi().cosine(), num(-1.0));
    assert_eq!(neg(Sym::pi()).sine(), num(0.0));
    assert_eq!(neg(Sym::pi()).cosine(), num(-1.0));
    assert_eq!(Sym::pi().div(num(2.0)).sine(), num(1.0));
    assert_eq!(Sym::pi().div(num(2.0)).cosine(), num(0.0));
    assert_eq!(neg(Sym::pi().div(num(2.0))).sine(), num(-1.0));
    assert_eq!(neg(Sym::pi()).div(num(2.0)).sine(), num(-1.0));
    assert_eq!(neg(Sym::pi()).div(num(2.0)).cosine(), num(0.0));
    assert_eq!(sym("q").sine(), op(Operation::Sin(sym("q"))));
    assert_eq!(sym("q").cosine(), op(Operation::Cos(sym("q"))));
    assert_eq!(num(1.0).sine(), op(Operation::Sin(num(1.0))));
}

#[test]
fn named_values() {
    assert_eq!(Sym::zero(), num(0.0));
    assert_eq!(Sym::one(), num(1.0));
    assert_eq!(Sym::pi(), Sym::Constant(Constant::Pi));
    assert_eq!(Sym::default(), num(0.0));
    assert_eq!(Sym::from("x"), sym("x"));
    assert_eq!(Sym::from(Constant::Pi), Sym::pi());
    assert!(Sym::zero().is_zero());
    assert!(num(-0.0).is_zero());
    assert!(!num(1.0).is_zero());
    assert!(!sym("x").is_zero());
    assert!(Sym::one().is_one());
    assert!(!num(2.0).is_one());
    assert!(num(2.0).is_number());
    assert!(!sym("x").is_number());
}

#[test]
fn assignment_forms_do_what_the_operators_do() {
    let mut s = sym("x");
    s.add_assign(sym("y"));
    assert_eq!(s, sym("x").add(sym("y")));
    s.sub_assign(num(0.0));
    assert_eq!(s, sym("x").add(sym("y")));
    s.mul_assign(num(2.0));
    assert_eq!(s, sym("x").add(sym("y")).mul(num(2.0)));
    s.div_assign(sym("z"));
    assert_eq!(s, sym("x").add(sym("y")).mul(num(2.0)).div(sym("z")));
    s.rem_assign(sym("w"));
    assert_eq!(s, sym("x").add(sym("y")).mul(num(2.0)).div(sym("z")).rem(sym("w")));
    s.set_zero();
    assert_eq!(s, num(0.0));
}

#[test]
fn text_of_every_form() {
    assert_eq!(num(3.0).to_text(), "3");
    assert_eq!(num(-1.5).to_text(), "-1.5");
    assert_eq!(sym("q1").to_text(), "q1");
    assert_eq!(Sym::pi().to_text(), "pi");
    assert_eq!(op(Operation::Sin(sym("x"))).to_text(), "sin(x)");
    assert_eq!(op(Operation::Cos(sym("x"))).to_text(), "cos(x)");
    assert_eq!(op(Operation::Sqrt(sym("x"))).to_text(), "sqrt(x)");
    assert_eq!(op(Operation::Add(sym("x"), sym("y"))).to_text(), "(x+y)");
    assert_eq!(op(Operation::Sub(sym("x"), sym("y"))).to_text(), "(x-y)");
    assert_eq!(op(Operation::Mul(sym("x"), sym("y"))).to_text(), "(x*y)");
    assert_eq!(op(Operation::Div(sym("x"), sym("y"))).to_text(), "(x/y)");
    assert_eq!(op(Operation::Rem(sym("x"), sym("y"))).to_text(), "x%y");
    assert_eq!(op(Operation::UnSub(sym("x"))).to_text(), "-x");
    assert_eq!(op(Operation::Nop(sym("x"))).to_text(), "x");
    assert_eq!(op(Operation::Sum(vec![sym("x"), sym("y"), num(2.0)])).to_text(), "(x+y+2)");
    assert_eq!(op(Operation::Prod(vec![sym("x"), sym("y"), num(2.0)])).to_text(), "(x*y*2)");
    assert_eq!(op(Operation::Sum(vec![])).to_text(), "()");
    assert_eq!(op(Operation::Prod(vec![sym("x")])).to_text(), "(x)");
    assert_eq!(Operation::Add(sym("x"), sym("y")).to_text(), "(x+y)");
    assert_eq!(sym("längd").to_text(), "längd");
}

#[test]
fn tex_of_every_form() {
    assert_eq!(num(3.0).to_tex(None), "3");
    assert_eq!(sym("q_1").to_tex(None), "q_1");
    assert_eq!(sym("q_1").to_tex(Some("name")), "q_1");
    assert_eq!(Sym::pi().to_tex(None), "\\pi");
    assert_eq!(Constant::Pi.to_tex(None), "\\pi");
    assert_eq!(op(Operation::Sin(sym("x"))).to_tex(None), " sin\\left(x\\right) ");
    assert_eq!(op(Operation::Cos(sym("x"))).to_tex(None), " cos\\left(x\\right) ");
    assert_eq!(op(Operation::Sqrt(sym("x"))).to_tex(None), " \\sqrt{x} ");
    assert_eq!(op(Operation::Add(sym("x"), sym("y"))).to_tex(None), " x+y ");
    assert_eq!(op(Operation::Sub(sym("x"), sym("y"))).to_tex(None), " x-y ");
    assert_eq!(op(Operation::Mul(sym("x"), sym("y"))).to_tex(None), " x \\cdot y ");
    assert_eq!(op(Operation::Div(sym("x"), sym("y"))).to_tex(None), " \\frac{x}{y} ");
    assert_eq!(op(Operation::Rem(sym("x"), sym("y"))).to_tex(None), " x\\%y ");
    assert_eq!(op(Operation::UnSub(sym("x"))).to_tex(None), "-x");
    assert_eq!(op(Operation::Nop(sym("x"))).to_tex(None), "x");
    assert_eq!(op(Operation::Sum(vec![sym("x"), sym("y"), num(2.0)])).to_tex(None), " x+y+2 ");
    assert_eq!(
        op(Operation::Prod(vec![sym("x"), sym("y"), num(2.0)])).to_tex(None),
        " x \\cdot y \\cdot 2 "
    );
    assert_eq!(Operation::Add(sym("x"), sym("y")).to_tex(None), " x+y ");
}

#[test]
fn tex_brackets_an_operand_list_inside_another() {
    let sum = op(Operation::Add(sym("x"), sym("y")));
    assert_eq!(
        op(Operation::Mul(sum.duplicate(), sym("z"))).to_tex(None),
        " \\left( x+y \\right) \\cdot z "
    );
    assert_eq!(
        op(Operation::Div(sum.duplicate(), sym("z"))).to_tex(None),
        " \\frac{ x+y }{z} "
    );
    assert_eq!(op(Operation::Sin(sum.duplicate())).to_tex(None), " sin\\left( x+y \\right) ");
    assert_eq!(op(Operation::UnSub(sum)).to_tex(None), "-\\left( x+y \\right)");
}

#[test]
fn equality_is_by_structure() {
    let a = sym("x").mul(sym("y")).add(num(2.0));
    let b = sym("x").mul(sym("y")).add(num(2.0));
    assert!(a.eq_internal(&b));
    assert!(a.eq_internal(&a.duplicate()));
    assert!(!a.eq_internal(&sym("x").mul(sym("z")).add(num(2.0))));
    assert!(!sym("x").eq_internal(&sym("y")));
    assert!(!sym("x").eq_internal(&sym("xy")));
    assert!(!sym("1").eq_internal(&num(1.0)));
    assert!(!num(0.0).eq_internal(&num(-0.0)));
    assert!(num(f32::NAN).eq_internal(&num(f32::NAN)));
    assert!(Sym::pi().eq_internal(&Sym::pi()));
    let sum2 = op(Operation::Sum(vec![sym("x"), sym("y")]));
    let sum3 = op(Operation::Sum(vec![sym("x"), sym("y"), sym("z")]));
    assert!(!sum2.eq_internal(&sum3));
    assert!(!sum3.eq_internal(&sum2));
    assert!(sum3.eq_internal(&sum3.duplicate()));
    assert!(!sum2.eq_internal(&op(Operation::Prod(vec![sym("x"), sym("y")]))));
    assert!(!sum2.eq_internal(&op(Operation::Add(sym("x"), sym("y")))));
    assert!(Operation::Sin(sym("x")).eq_internal(&Operation::Sin(sym("x"))));
    assert!(!Operation::Sin(sym("x")).eq_internal(&Operation::Cos(sym("x"))));
    assert!(same_name("abc", "abc"));
    assert!(!same_name("abc", "abd"));
    assert!(!same_name("abc", "ab"));
    assert!(same_name("", ""));
}

#[test]
fn copies_are_equal_and_independent() {
    let v = vec![sym("x"), num(2.0), sym("x").mul(sym("y"))];
    let w = duplicate_all(&v);
    assert_eq!(v, w);
    assert!(all_equal(&v, &w));
    let mut u = duplicate_all(&v);
    u.push(sym("z"));
    assert!(!all_equal(&v, &u));
    let o = Operation::Prod(v);
    assert_eq!(o.duplicate(), o);
}

#[test]
fn negation_is_recognised() {
    assert!(is_negation_of(&neg(sym("x")), &sym("x")));
    assert!(is_negation_of(&sym("x"), &neg(sym("x"))));
    assert!(is_negation_of(&num(-2.0), &num(2.0)));
    assert!(!is_negation_of(&neg(num(2.0)), &num(2.0)));
    assert!(!is_negation_of(&sym("x"), &sym("x")));
    assert!(!is_negation_of(&neg(sym("y")), &sym("x")));
}

#[test]
fn tex_looks_through_a_mark() {
    let sum = op(Operation::Nop(op(Operation::Add(sym("x"), sym("y")))));
    assert_eq!(sum.to_tex(None), " x+y ");
    assert_eq!(
        op(Operation::Mul(sum.duplicate(), sym("z"))).to_tex(None),
        " \\left( x+y \\right) \\cdot z "
    );
    assert_eq!(op(Operation::Mul(op(Operation::Nop(sym("x"))), sym("z"))).to_tex(None), " x \\cdot z ");
    assert_eq!(op(Operation::Mul(sum, sym("z"))).to_text(), "((x+y)*z)");
}

#[test]
fn clones_are_equal() {
    let e = sym("x").mul(sym("y")).add(op(Operation::Sum(vec![num(2.0), sym("z")])));
    assert_eq!(e.clone(), e);
    assert_eq!(e.clone().to_text(), e.to_text());
    let o = Operation::Prod(vec![sym("x"), num(2.0)]);
    assert_eq!(o.clone(), o);
}

#[test]
fn equality_of_value_compares_literals_as_numbers() {
    assert!(num(0.0).eq_value(&num(-0.0)));
    assert!(num(-0.0).eq_value(&num(0.0)));
    assert!(!num(f32::NAN).eq_value(&num(f32::NAN)));
    assert!(num(2.5).eq_value(&num(2.5)));
    assert!(!num(2.5).eq_value(&num(-2.5)));
    assert!(num(f32::INFINITY).eq_value(&num(f32::INFINITY)));
    assert!(!num(f32::INFINITY).eq_value(&num(f32::NEG_INFINITY)));
    assert!(!num(1.0).eq_value(&sym("1")));
    assert!(sym("x").eq_value(&sym("x")));
    assert!(!sym("x").eq_value(&sym("y")));
    assert!(Sym::pi().eq_value(&Sym::pi()));
    let a = sym("x").mul(sym("y")).add(op(Operation::Sum(vec![num(0.0), sym("z")])));
    let b = sym("x").mul(sym("y")).add(op(Operation::Sum(vec![num(-0.0), sym("z")])));
    assert!(a.eq_value(&b));
    assert!(!a.eq_internal(&b));
    assert!(a.eq_value(&a.clone()));
    let with_nan = op(Operation::Prod(vec![sym("x"), num(f32::NAN)]));
    assert!(!with_nan.eq_value(&with_nan.clone()));
    assert!(with_nan.eq_internal(&with_nan.clone()));
    let shorter = op(Operation::Sum(vec![sym("x")]));
    let longer = op(Operation::Sum(vec![sym("x"), sym("y")]));
    assert!(!shorter.eq_value(&longer));
    assert!(!longer.eq_value(&shorter));
    assert!(!shorter.eq_value(&op(Operation::Prod(vec![sym("x")]))));
    assert!(sym("x").rem(num(0.0)).eq_value(&sym("x").rem(num(-0.0))));
    assert!(Operation::Nop(num(0.0)).eq_value(&Operation::Nop(num(-0.0))));
    for (x, y) in [(0.0f32, -0.0f32), (1.0, 1.0), (f32::NAN, 1.0), (f32::NAN, f32::NAN), (3.0, 4.0)] {
        assert_eq!(num(x).eq_value(&num(y)), x == y);
    }
}
