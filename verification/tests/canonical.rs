use robotics::canon::{
    canonicalize, canonicalize_operation, collect_add_terms, collect_mul_terms, is_product_node,
    is_sum_node, merge, merge_operation, sort, sort_add, sort_mul, to_prod, to_sum,
};
use robotics::order::{key_le, precedes, prio, sort_key, sort_syms};
use robotics::syms::{Operation, Sym};

fn num(x: f32) -> Sym {
    Sym::Number(x.to_bits())
}

fn sym(name: &'static str) -> Sym {
    Sym::Identifier(name)
}

fn op(o: Operation) -> Sym {
    Sym::Operation(Box::new(o))
}

fn samples() -> Vec<Sym> {
    vec![
        num(0.0),
        num(-0.0),
        num(1.0),
        num(10.0),
        num(9.0),
        num(f32::NAN),
        sym("a"),
        sym("b"),
        sym("ab"),
        sym(""),
        sym("(a+b)"),
        sym("pi"),
        Sym::pi(),
        op(Operation::Add(sym("a"), sym("b"))),
        op(Operation::Add(sym("b"), sym("a"))),
        op(Operation::Sum(vec![sym("a"), sym("b")])),
        op(Operation::Sum(vec![sym("b"), sym("a"), num(1.0)])),
        op(Operation::Sum(vec![])),
        op(Operation::Mul(sym("a"), sym("b"))),
        op(Operation::Prod(vec![sym("a"), sym("b")])),
        op(Operation::Prod(vec![op(Operation::Mul(sym("c"), sym("a"))), sym("b")])),
        op(Operation::Mul(sym("a+b"), sym("c"))),
        op(Operation::Nop(sym("a"))),
        op(Operation::Nop(op(Operation::Add(sym("a"), sym("b"))))),
        op(Operation::UnSub(sym("a"))),
        op(Operation::Sin(sym("a"))),
        op(Operation::Cos(sym("a"))),
        op(Operation::Sqrt(sym("a"))),
        op(Operation::Div(sym("a"), sym("b"))),
        op(Operation::Sub(sym("a"), sym("b"))),
        op(Operation::Rem(sym("a"), sym("b"))),
        op(Operation::Add(op(Operation::Add(sym("d"), sym("c"))), op(Operation::Add(sym("b"), sym("a"))))),
    ]
}

#[test]
fn classes_come_in_their_order() {
    assert_eq!(prio(&sym("x")), 0);
    assert_eq!(prio(&num(1.0)), 1);
    assert_eq!(prio(&Sym::pi()), 2);
    assert_eq!(prio(&op(Operation::Sin(sym("x")))), 3);
    assert!(precedes(&sym("z"), &num(0.0)));
    assert!(precedes(&num(9.0), &Sym::pi()));
    assert!(precedes(&Sym::pi(), &op(Operation::Sin(sym("a")))));
    assert!(!precedes(&op(Operation::Sin(sym("a"))), &sym("z")));
}

#[test]
fn a_class_is_ordered_by_text() {
    assert!(precedes(&sym("a"), &sym("b")));
    assert!(!precedes(&sym("b"), &sym("a")));
    assert!(precedes(&sym("a"), &sym("ab")));
    assert!(precedes(&sym("a1"), &sym("q1")));
    assert!(precedes(&num(10.0), &num(9.0)));
    assert!(precedes(&op(Operation::Cos(sym("x"))), &op(Operation::Sin(sym("x")))));
    assert!(precedes(&sym("x"), &sym("x")));
}

#[test]
fn equal_texts_are_ordered_by_structure() {
    let add = op(Operation::Add(sym("a"), sym("b")));
    let sum = op(Operation::Sum(vec![sym("a"), sym("b")]));
    assert_eq!(add.to_text(), sum.to_text());
    assert!(precedes(&add, &sum));
    assert!(!precedes(&sum, &add));
    let plain = sym("a");
    let marked = op(Operation::Nop(op(Operation::Sin(sym("a")))));
    let sine = op(Operation::Sin(sym("a")));
    assert_eq!(marked.to_text(), sine.to_text());
    assert!(precedes(&sine, &marked) != precedes(&marked, &sine));
    assert!(precedes(&plain, &marked));
}

#[test]
fn the_order_is_total() {
    let s = samples();
    for a in s.iter() {
        assert!(precedes(a, a));
        for b in s.iter() {
            assert!(precedes(a, b) || precedes(b, a));
            if precedes(a, b) && precedes(b, a) {
                assert_eq!(a, b);
            }
            for c in s.iter() {
                if precedes(a, b) && precedes(b, c) {
                    assert!(precedes(a, c));
                }
            }
        }
    }
}

#[test]
fn keys_compare_like_the_expressions() {
    let a = sort_key(&sym("a"));
    let b = sort_key(&sym("b"));
    assert!(key_le(&a, &b));
    assert!(!key_le(&b, &a));
    assert!(key_le(&a, &a));
    assert_eq!(a[0], 0);
    assert_eq!(a[1], 'a' as u64 + 1);
    assert_eq!(a[2], 0);
    assert_eq!(sort_key(&num(1.0))[0], 1);
}

#[test]
fn sorting_gives_one_arrangement() {
    let sorted = sort_syms(vec![sym("c"), num(2.0), sym("a"), Sym::pi(), sym("b"), num(1.0)]);
    assert_eq!(sorted, vec![sym("a"), sym("b"), sym("c"), num(1.0), num(2.0), Sym::pi()]);
    let again = sort_syms(vec![num(1.0), Sym::pi(), sym("b"), sym("c"), num(2.0), sym("a")]);
    assert_eq!(again, sorted);
    assert_eq!(sort_syms(vec![]), Vec::<Sym>::new());
    assert_eq!(sort_syms(vec![sym("a"), sym("a")]), vec![sym("a"), sym("a")]);
}

#[test]
fn nested_products_become_one_product() {
    let nested = op(Operation::Mul(
        op(Operation::Mul(sym("d"), sym("c"))),
        op(Operation::Mul(sym("b"), sym("a"))),
    ));
    assert_eq!(
        canonicalize(nested),
        op(Operation::Prod(vec![sym("a"), sym("b"), sym("c"), sym("d")]))
    );
    let deep = op(Operation::Prod(vec![
        sym("z"),
        op(Operation::Prod(vec![sym("y"), op(Operation::Mul(sym("x"), num(2.0)))])),
    ]));
    assert_eq!(
        canonicalize(deep),
        op(Operation::Prod(vec![sym("x"), sym("y"), sym("z"), num(2.0)]))
    );
}

#[test]
fn nested_sums_become_one_sum() {
    let nested = op(Operation::Add(
        op(Operation::Add(sym("d"), sym("c"))),
        op(Operation::Add(sym("b"), sym("a"))),
    ));
    assert_eq!(
        canonicalize(nested),
        op(Operation::Sum(vec![sym("a"), sym("b"), sym("c"), sym("d")]))
    );
    let both = op(Operation::Add(
        op(Operation::Add(sym("z"), sym("w"))),
        op(Operation::Sum(vec![sym("y"), sym("x")])),
    ));
    assert_eq!(
        canonicalize(both),
        op(Operation::Sum(vec![sym("w"), sym("x"), sym("y"), sym("z")]))
    );
    // An addition with a leaf among its operands is put in order, no more.
    let mixed = op(Operation::Add(op(Operation::Sum(vec![sym("y"), sym("x")])), sym("z")));
    assert_eq!(
        canonicalize(mixed),
        op(Operation::Add(sym("z"), op(Operation::Sum(vec![sym("y"), sym("x")]))))
    );
    // The simplifier's merge takes the leaf in.
    let mixed = op(Operation::Add(op(Operation::Sum(vec![sym("y"), sym("x")])), sym("z")));
    assert_eq!(merge(mixed), op(Operation::Sum(vec![sym("x"), sym("y"), sym("z")])));
    let product = op(Operation::Mul(sym("z"), op(Operation::Mul(sym("y"), sym("x")))));
    assert_eq!(merge(product), op(Operation::Prod(vec![sym("x"), sym("y"), sym("z")])));
    assert_eq!(
        merge(op(Operation::Mul(sym("b"), sym("a")))),
        op(Operation::Mul(sym("a"), sym("b")))
    );
    assert_eq!(merge(sym("a")), sym("a"));
    let mut o = Operation::Mul(sym("z"), op(Operation::Prod(vec![sym("y"), sym("x")])));
    merge_operation(&mut o);
    assert_eq!(o, Operation::Prod(vec![sym("x"), sym("y"), sym("z")]));
}

#[test]
fn a_plain_pair_is_put_in_order() {
    assert_eq!(
        canonicalize(op(Operation::Add(sym("b"), sym("a")))),
        op(Operation::Add(sym("a"), sym("b")))
    );
    assert_eq!(
        canonicalize(op(Operation::Mul(num(2.0), sym("a")))),
        op(Operation::Mul(sym("a"), num(2.0)))
    );
    assert_eq!(
        canonicalize(op(Operation::Add(sym("a"), sym("b")))),
        op(Operation::Add(sym("a"), sym("b")))
    );
    assert_eq!(
        canonicalize(op(Operation::Sub(sym("b"), sym("a")))),
        op(Operation::Sub(sym("b"), sym("a")))
    );
    assert_eq!(canonicalize(sym("x")), sym("x"));
    assert_eq!(canonicalize(num(1.0)), num(1.0));
}

#[test]
fn a_product_inside_a_sum_stays_whole() {
    let e = op(Operation::Add(op(Operation::Mul(sym("b"), sym("a"))), sym("c")));
    assert_eq!(
        canonicalize(e),
        op(Operation::Add(sym("c"), op(Operation::Mul(sym("b"), sym("a")))))
    );
}

#[test]
fn canonical_forms_stay_as_they_are() {
    for e in samples() {
        let once = canonicalize(e);
        let twice = canonicalize(once.duplicate());
        assert_eq!(twice, once);
    }
}

#[test]
fn a_sum_has_one_canonical_form_whatever_the_order() {
    let s = samples();
    for a in s.iter() {
        for b in s.iter() {
            let ab = canonicalize(a.duplicate().add(b.duplicate()));
            let ba = canonicalize(b.duplicate().add(a.duplicate()));
            assert_eq!(ab, ba, "{} and {}", a.to_text(), b.to_text());
            let ab = canonicalize(op(Operation::Add(a.duplicate(), b.duplicate())));
            let ba = canonicalize(op(Operation::Add(b.duplicate(), a.duplicate())));
            assert_eq!(ab, ba);
            let ab = canonicalize(op(Operation::Mul(a.duplicate(), b.duplicate())));
            let ba = canonicalize(op(Operation::Mul(b.duplicate(), a.duplicate())));
            assert_eq!(ab, ba);
        }
    }
}

#[test]
fn to_prod_says_whether_it_found_a_nest() {
    let mut plain = Operation::Mul(sym("b"), sym("a"));
    assert!(!to_prod(&mut plain));
    assert_eq!(plain, Operation::Mul(sym("b"), sym("a")));
    let mut mixed = Operation::Mul(op(Operation::Mul(sym("c"), sym("b"))), sym("a"));
    assert!(!to_prod(&mut mixed));
    assert_eq!(mixed, Operation::Mul(op(Operation::Mul(sym("c"), sym("b"))), sym("a")));
    let mut mixed = Operation::Mul(sym("a"), op(Operation::Prod(vec![sym("c"), sym("b")])));
    assert!(!to_prod(&mut mixed));
    assert_eq!(mixed, Operation::Mul(sym("a"), op(Operation::Prod(vec![sym("c"), sym("b")]))));
    let mut nest = Operation::Mul(
        op(Operation::Mul(sym("c"), sym("b"))),
        op(Operation::Prod(vec![sym("a")])),
    );
    assert!(to_prod(&mut nest));
    assert_eq!(nest, Operation::Prod(vec![sym("a"), sym("b"), sym("c")]));
    let mut product = Operation::Prod(vec![sym("b"), sym("a")]);
    assert!(to_prod(&mut product));
    assert_eq!(product, Operation::Prod(vec![sym("a"), sym("b")]));
    let mut sum = Operation::Add(
        op(Operation::Add(sym("c"), sym("b"))),
        op(Operation::Sum(vec![sym("a")])),
    );
    assert!(!to_prod(&mut sum));
    assert!(to_sum(&mut sum));
    assert_eq!(sum, Operation::Sum(vec![sym("a"), sym("b"), sym("c")]));
    let mut sum = Operation::Add(op(Operation::Add(sym("c"), sym("b"))), sym("a"));
    assert!(!to_sum(&mut sum));
    assert_eq!(sum, Operation::Add(op(Operation::Add(sym("c"), sym("b"))), sym("a")));
    let mut other = Operation::Sin(sym("a"));
    assert!(!to_sum(&mut other));
    assert!(!to_prod(&mut other));
    assert_eq!(other, Operation::Sin(sym("a")));
}

#[test]
fn sort_orders_the_operands_it_is_given() {
    let mut o = Operation::Sum(vec![sym("b"), num(1.0), sym("a")]);
    sort(&mut o);
    assert_eq!(o, Operation::Sum(vec![sym("a"), sym("b"), num(1.0)]));
    let mut o = Operation::Prod(vec![op(Operation::Mul(sym("b"), sym("a"))), sym("c")]);
    sort(&mut o);
    assert_eq!(o, Operation::Prod(vec![sym("c"), op(Operation::Mul(sym("b"), sym("a")))]));
    let mut o = Operation::Add(sym("b"), sym("a"));
    sort_mul(&mut o);
    assert_eq!(o, Operation::Add(sym("b"), sym("a")));
    sort_add(&mut o);
    assert_eq!(o, Operation::Add(sym("a"), sym("b")));
    let mut o = Operation::Mul(sym("b"), sym("a"));
    sort_add(&mut o);
    assert_eq!(o, Operation::Mul(sym("b"), sym("a")));
    sort_mul(&mut o);
    assert_eq!(o, Operation::Mul(sym("a"), sym("b")));
    let mut o = Operation::Div(sym("b"), sym("a"));
    sort(&mut o);
    assert_eq!(o, Operation::Div(sym("b"), sym("a")));
    let mut o = Operation::Add(op(Operation::Add(sym("c"), sym("b"))), sym("a"));
    canonicalize_operation(&mut o);
    assert_eq!(o, Operation::Add(sym("a"), op(Operation::Add(sym("c"), sym("b")))));
    let mut o = Operation::Add(
        op(Operation::Add(sym("c"), sym("b"))),
        op(Operation::Add(sym("a"), sym("d"))),
    );
    canonicalize_operation(&mut o);
    assert_eq!(o, Operation::Sum(vec![sym("a"), sym("b"), sym("c"), sym("d")]));
}

#[test]
fn terms_are_collected_left_to_right() {
    let o = Operation::Add(op(Operation::Add(sym("c"), sym("b"))), op(Operation::Mul(sym("x"), sym("a"))));
    assert_eq!(
        collect_add_terms(&o),
        vec![sym("c"), sym("b"), op(Operation::Mul(sym("x"), sym("a")))]
    );
    assert_eq!(collect_mul_terms(&o), vec![op(o.duplicate())]);
    let p = Operation::Prod(vec![sym("c"), op(Operation::Mul(sym("b"), sym("a")))]);
    assert_eq!(collect_mul_terms(&p), vec![sym("c"), sym("b"), sym("a")]);
    assert!(is_sum_node(&op(o)));
    assert!(is_product_node(&op(p)));
    assert!(!is_sum_node(&sym("a")));
    assert!(!is_product_node(&op(Operation::Sin(sym("a")))));
}
