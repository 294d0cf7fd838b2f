use robotics::arith::SignInversion;
use robotics::decore::{ToMatlab, ToTex};
use robotics::opt::Opt;
use robotics::pose::{matrix_to_matlab, matrix_to_tex, Pose};
use robotics::syms::{Operation, Sym};

fn num(x: f32) -> Sym {
    Sym::Number(x.to_bits())
}

fn sym(name: &'static str) -> Sym {
    Sym::Identifier(name)
}

fn op(o: Operation) -> Sym {
    Sym::Operation(Box::new(o))
}

type Grid = Vec<Vec<Sym>>;

fn identity() -> Grid {
    let mut m = Vec::new();
    for i in 0..4 {
        let mut row = Vec::new();
        for j in 0..4 {
            row.push(if i == j { num(1.0) } else { num(0.0) });
        }
        m.push(row);
    }
    m
}

fn rotz(t: &Sym) -> Grid {
    let mut m = identity();
    m[0][0] = t.duplicate().cosine();
    m[0][1] = t.duplicate().sine().sing_inversion();
    m[1][0] = t.duplicate().sine();
    m[1][1] = t.duplicate().cosine();
    m
}

fn rotx(t: &Sym) -> Grid {
    let mut m = identity();
    m[1][1] = t.duplicate().cosine();
    m[1][2] = t.duplicate().sine().sing_inversion();
    m[2][1] = t.duplicate().sine();
    m[2][2] = t.duplicate().cosine();
    m
}

fn translation(x: Sym, y: Sym, z: Sym) -> Grid {
    let mut m = identity();
    m[0][3] = x;
    m[1][3] = y;
    m[2][3] = z;
    m
}

fn product(a: &Grid, b: &Grid) -> Grid {
    let mut m = Vec::new();
    for i in 0..4 {
        let mut row = Vec::new();
        for j in 0..4 {
            let mut acc = num(0.0);
            for k in 0..4 {
                acc = acc.add(a[i][k].duplicate().mul(b[k][j].duplicate()));
            }
            row.push(acc);
        }
        m.push(row);
    }
    m
}

fn joint(theta: Sym, d: Sym, a: Sym, alpha: Sym) -> Grid {
    let rz = rotz(&theta);
    let tz = translation(num(0.0), num(0.0), d);
    let tx = translation(a, num(0.0), num(0.0));
    let rx = rotx(&alpha);
    product(&product(&product(&rz, &tz), &tx), &rx)
}

fn arm() -> Grid {
    let t1 = joint(sym("q1"), num(0.0), sym("a1"), num(0.0));
    let t2 = joint(sym("q2"), num(0.0), sym("a2"), num(0.0));
    let t3 = joint(sym("q3"), num(0.0), sym("a3"), num(0.0));
    product(&product(&t1, &t2), &t3)
}

fn is_zero_literal(s: &Sym) -> bool {
    matches!(s, Sym::Number(b) if f32::from_bits(*b) == 0.0)
}

fn has_sum_of_zeros(s: &Sym) -> bool {
    match s {
        Sym::Operation(o) => match &**o {
            Operation::Add(a, b) | Operation::Sub(a, b) => {
                (is_zero_literal(a) && is_zero_literal(b)) || has_sum_of_zeros(a) || has_sum_of_zeros(b)
            }
            Operation::Mul(a, b) | Operation::Div(a, b) | Operation::Rem(a, b) => {
                has_sum_of_zeros(a) || has_sum_of_zeros(b)
            }
            Operation::Sum(v) | Operation::Prod(v) => v.iter().any(has_sum_of_zeros),
            Operation::Sqrt(a)
            | Operation::UnSub(a)
            | Operation::Cos(a)
            | Operation::Sin(a)
            | Operation::Nop(a) => has_sum_of_zeros(a),
        },
        _ => false,
    }
}

#[test]
fn three_joints_in_a_plane() {
    let t = arm();
    let pose: Pose<0, 3> = Pose::new(t).unwrap();
    let (x, y, z) = pose.fk();
    let x = x.opt();
    let y = y.opt();
    let z = z.opt();
    for cell in [&x, &y, &z] {
        assert!(!has_sum_of_zeros(cell), "{}", cell.to_text());
        assert!(!cell.holds_sum_of_zeros());
        assert!(!cell.holds_mark());
        assert!(cell.is_folded());
        let tex = cell.to_tex(None);
        assert!(!tex.contains("{}"), "{}", tex);
        assert_eq!(cell.duplicate().opt(), *cell);
    }
    assert_eq!(x.to_text(), "((a1*cos(q1))+(a2*cos((q1+q2)))+(a3*cos((q1+q2+q3))))");
    assert_eq!(y.to_text(), "((a1*sin(q1))+(a2*sin((q1+q2)))+(a3*sin((q1+q2+q3))))");
    assert_eq!(z, num(0.0));
}

#[test]
fn the_translation_of_three_joints_as_an_equation() {
    let pose: Pose<0, 3> = Pose::new(arm()).unwrap();
    let (x, y, z) = pose.fk();
    let column = vec![vec![x.opt()], vec![y.opt()], vec![z.opt()]];
    let tex = matrix_to_tex(&column, 1, Some("p"));
    assert!(!tex.contains("{}"), "{}", tex);
    let expected = "\\begin{equation}\\label{ p }\n\tp = \\left[\\begin{array}{c}\n\
\t\t \\left( a1 \\cdot  cos\\left(q1\\right)  \\right)+\\left( a2 \\cdot  cos\\left( q1+q2 \\right)  \\right)+\\left( a3 \\cdot  cos\\left( q1+q2+q3 \\right)  \\right) \\\\\n\
\t\t \\left( a1 \\cdot  sin\\left(q1\\right)  \\right)+\\left( a2 \\cdot  sin\\left( q1+q2 \\right)  \\right)+\\left( a3 \\cdot  sin\\left( q1+q2+q3 \\right)  \\right) \\\\\n\
\t\t0\\\\\n\
\t\\end{array}\\right]\n\\end{equation}\n";
    assert_eq!(tex, expected);
    assert!(!matrix_to_tex(&column, 1, None).contains("{}"));
    assert_eq!(
        matrix_to_matlab(&vec![vec![num(1.0), sym("x")], vec![sym("y"), num(2.0)]], "M"),
        "M\t=\t[[1,x];[y,2];];\n"
    );
    assert_eq!(
        matrix_to_tex(&vec![vec![num(1.0), sym("x")], vec![sym("y")]], 2, Some("M")),
        "\\begin{equation}\\label{ M }\n\tM = \\left[\\begin{array}{cc}\n\t\t1 & x\\\\\n\t\ty\\\\\n\t\\end{array}\\right]\n\\end{equation}\n"
    );
    assert_eq!(
        matrix_to_tex(&vec![], 3, None),
        "\\begin{equation}\\label{  }\n\t\\left[\\begin{array}{ccc}\n\t\\end{array}\\right]\n\\end{equation}\n"
    );
}

#[test]
fn the_equation_of_a_matrix_opens_and_closes_and_holds_no_empty_bracket() {
    let pose: Pose<0, 3> = Pose::new(arm()).unwrap();
    let (x, y, z) = pose.fk();
    let column = vec![vec![x.opt()], vec![y.opt()], vec![z.opt()]];
    for name in [Some("fk"), None] {
        let tex = matrix_to_tex(&column, 1, name);
        assert!(tex.starts_with("\\begin{equation}"), "{}", tex);
        assert!(tex.ends_with("\\end{equation}\n"), "{}", tex);
        assert!(!tex.contains("\\left(\\right)"), "{}", tex);
        assert!(!tex.contains("{}"), "{}", tex);
    }
    let again: Pose<0, 3> = Pose::new(arm()).unwrap();
    let whole = again.opt().to_tex(Some("T"));
    assert!(whole.starts_with("\\begin{equation}"));
    assert!(whole.ends_with("\\end{equation}\n"));
    assert!(!whole.contains("\\left(\\right)"));
    let empty = matrix_to_tex(&vec![], 0, None);
    assert!(empty.starts_with("\\begin{equation}"));
    assert!(empty.ends_with("\\end{equation}\n"));
}

#[test]
fn an_empty_bracket_comes_only_from_a_name() {
    assert_eq!(sym("").sine().to_tex(None), " sin\\left(\\right) ");
    assert!(sym("\\right)").sine().to_tex(None).contains("\\left(\\right)"));
    assert!(sym("a\\left(").cosine().to_tex(None).contains("\\left(\\right)"));
    assert!(!sym("\\rho").sine().to_tex(None).contains("\\left(\\right)"));
    assert!(!sym("f(x)").sine().to_tex(None).contains("\\left(\\right)"));
    assert!(!sym(")").sine().to_tex(None).contains("\\left(\\right)"));
    assert!(!sym("\\theta_{1}").add(sym("q")).cosine().to_tex(None).contains("\\left(\\right)"));
    let nested = sym("x").add(sym("y")).mul(sym("z").sub(num(1.5))).sine().opt();
    assert!(!nested.to_tex(None).contains("\\left(\\right)"));
    assert!(!op(Operation::Prod(vec![])).mul(sym("x")).to_tex(None).contains("\\left(\\right)"));
    assert!(!op(Operation::Sum(vec![])).cosine().to_tex(None).contains("\\left(\\right)"));
}

#[test]
fn an_empty_group_comes_only_from_an_empty_name_or_no_column() {
    assert!(Sym::sqrt(sym("")).to_tex(None).contains("{}"));
    assert!(sym("").div(sym("x")).to_tex(None).contains("{}"));
    assert!(!Sym::sqrt(sym("q_{1}")).to_tex(None).contains("{}"));
    assert!(!sym("x").div(Sym::sqrt(sym("q_{1}").add(num(0.5)))).to_tex(None).contains("{}"));
    assert!(matrix_to_tex(&vec![vec![sym("x")]], 0, None).contains("{}"));
    assert!(!matrix_to_tex(&vec![vec![sym("x")]], 1, None).contains("{}"));
}

#[test]
fn the_rotation_of_two_joints_is_the_rotation_by_the_sum() {
    let t1 = joint(sym("q1"), num(0.0), sym("a1"), num(0.0));
    let t2 = joint(sym("q2"), num(0.0), sym("a2"), num(0.0));
    let pose: Pose<0, 2> = Pose::new(product(&t1, &t2)).unwrap().opt();
    let angle = || op(Operation::Add(sym("q1"), sym("q2")));
    assert_eq!(pose.cell(0, 0), op(Operation::Cos(angle())));
    assert_eq!(pose.cell(0, 1), op(Operation::UnSub(op(Operation::Sin(angle())))));
    assert_eq!(pose.cell(1, 0), op(Operation::Sin(angle())));
    assert_eq!(pose.cell(1, 1), op(Operation::Cos(angle())));
    assert_eq!(pose.cell(2, 2), num(1.0));
    assert_eq!(pose.cell(3, 3), num(1.0));
    assert_eq!(pose.cell(0, 2), num(0.0));
    assert_eq!(pose.cell(3, 0), num(0.0));
}

#[test]
fn a_joint_with_a_twist() {
    let t = joint(sym("q"), sym("d"), sym("a"), sym("w"));
    let pose: Pose<0, 1> = Pose::new(t).unwrap().opt();
    assert_eq!(pose.cell(0, 0).to_text(), "cos(q)");
    assert_eq!(pose.cell(0, 1).to_text(), "-(cos(w)*sin(q))");
    assert_eq!(pose.cell(0, 2).to_text(), "(sin(q)*sin(w))");
    assert_eq!(pose.cell(0, 3).to_text(), "(a*cos(q))");
    assert_eq!(pose.cell(1, 0).to_text(), "sin(q)");
    assert_eq!(pose.cell(1, 1).to_text(), "(cos(q)*cos(w))");
    assert_eq!(pose.cell(1, 2).to_text(), "-(cos(q)*sin(w))");
    assert_eq!(pose.cell(1, 3).to_text(), "(a*sin(q))");
    assert_eq!(pose.cell(2, 0).to_text(), "0");
    assert_eq!(pose.cell(2, 1).to_text(), "sin(w)");
    assert_eq!(pose.cell(2, 2).to_text(), "cos(w)");
    assert_eq!(pose.cell(2, 3).to_text(), "d");
    for row in pose.into_rows() {
        for cell in row {
            assert!(!has_sum_of_zeros(&cell));
            assert!(!cell.to_tex(None).contains("{}"));
        }
    }
}

#[test]
fn a_pose_has_four_rows_of_four() {
    assert!(Pose::<0, 1>::new(identity()).is_some());
    assert!(Pose::<0, 1>::new(vec![]).is_none());
    let mut short = identity();
    short.pop();
    assert!(Pose::<0, 1>::new(short).is_none());
    let mut ragged = identity();
    ragged[2].pop();
    assert!(Pose::<0, 1>::new(ragged).is_none());
    let mut wide = identity();
    wide[0].push(num(0.0));
    assert!(Pose::<0, 1>::new(wide).is_none());
    let pose = Pose::<0, 1>::new(identity()).unwrap();
    assert_eq!(pose.cell(1, 1), num(1.0));
    assert_eq!(pose.cell(1, 2), num(0.0));
    assert_eq!(pose.into_rows(), identity());
}

#[test]
fn a_pose_is_simplified_cell_by_cell() {
    let mut rows = identity();
    rows[0][0] = op(Operation::Add(sym("x"), num(0.0)));
    rows[1][3] = op(Operation::Mul(num(2.0), num(3.0)));
    rows[2][1] = sym("x").mul(sym("y")).add(sym("x").mul(sym("z")));
    let pose = Pose::<0, 1>::new(rows).unwrap().opt();
    assert_eq!(pose.cell(0, 0), sym("x"));
    assert_eq!(pose.cell(1, 3), num(6.0));
    assert_eq!(pose.cell(2, 1).to_text(), "(x*(y+z))");
    assert_eq!(pose.cell(3, 3), num(1.0));
    assert_eq!(pose.cell(3, 2), num(0.0));
}

#[test]
fn a_pose_as_a_tex_equation() {
    let mut rows = identity();
    rows[0][3] = sym("a").mul(sym("q").cosine());
    rows[2][3] = sym("d");
    let pose = Pose::<0, 1>::new(rows).unwrap();
    let expected = "\\begin{equation}\\label{ ^0T_1 }\n\t^0T_1 = \\left[\\begin{array}{cccc}\n\
\t\t1 & 0 & 0 &  a \\cdot  cos\\left(q\\right)  \\\\\n\
\t\t0 & 1 & 0 & 0\\\\\n\
\t\t0 & 0 & 1 & d\\\\\n\
\t\t0 & 0 & 0 & 1\\\\\n\
\t\\end{array}\\right]\n\\end{equation}\n";
    assert_eq!(pose.to_tex(Some("^0T_1")), expected);
    let unnamed = pose.to_tex(None);
    assert!(unnamed.starts_with("\\begin{equation}\\label{  }\n\t\\left[\\begin{array}{cccc}\n"));
    assert!(unnamed.ends_with("\t\\end{array}\\right]\n\\end{equation}\n"));
    assert!(!unnamed.contains("{}"));
}

#[test]
fn a_pose_as_a_matlab_assignment() {
    let mut rows = identity();
    rows[0][3] = sym("a").mul(sym("q").cosine());
    rows[1][0] = num(-0.5);
    let pose = Pose::<0, 1>::new(rows).unwrap();
    assert_eq!(
        pose.to_matlab("P_1"),
        "P_1\t=\t[[1,0,0,(a*cos(q))];[-0.5,1,0,0];[0,0,1,0];[0,0,0,1];];\n"
    );
}

#[test]
fn a_pose_from_a_translation() {
    let pose = Pose::<0, 1>::from_translation(sym("x"), num(2.0), sym("z"));
    let mut expected = identity();
    expected[0][3] = sym("x");
    expected[1][3] = num(2.0);
    expected[2][3] = sym("z");
    assert_eq!(pose.into_rows(), expected);
    let (x, y, z) = Pose::<0, 1>::from_translation(sym("x"), num(2.0), sym("z")).fk();
    assert_eq!((x, y, z), (sym("x"), num(2.0), sym("z")));
}

#[test]
fn a_pose_from_a_rotation() {
    let c = || sym("q").cosine();
    let s = || sym("q").sine();
    let turn = vec![
        vec![c(), s().sing_inversion(), num(0.0)],
        vec![s(), c(), num(0.0)],
        vec![num(0.0), num(0.0), num(1.0)],
    ];
    let pose = Pose::<0, 1>::rot(turn).unwrap();
    assert_eq!(pose.into_rows(), rotz(&sym("q")));
    assert!(Pose::<0, 1>::rot(vec![]).is_none());
    assert!(Pose::<0, 1>::rot(identity()).is_none());
    assert!(Pose::<0, 1>::rot(vec![vec![num(1.0)], vec![num(1.0)], vec![num(1.0)]]).is_none());
}
