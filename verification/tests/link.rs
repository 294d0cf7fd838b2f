use robotics::decore::ToTex;
use robotics::link::{DHBuilder, DHRow, DHTable};
use robotics::syms::{Constant, Sym};

fn num(x: f32) -> Sym {
    Sym::Number(x.to_bits())
}

fn sym(name: &'static str) -> Sym {
    Sym::Identifier(name)
}

#[test]
fn a_builder_takes_the_parameters_in_any_order() {
    let joint = DHBuilder::new()
        .a(sym("a_1"))
        .theta(sym("q_1"))
        .alpha(Sym::pi().div(num(2.0)))
        .d(num(0.0))
        .complete();
    assert_eq!(joint.theta, sym("q_1"));
    assert_eq!(joint.d, num(0.0));
    assert_eq!(joint.a, sym("a_1"));
    assert_eq!(joint.alpha, Sym::pi().div(num(2.0)));
    let other = DHBuilder::new().theta(1u8).d(2u16).a(3u32).alpha(4u64).complete();
    assert_eq!((other.theta, other.d, other.a, other.alpha), (1, 2, 3, 4));
}

#[test]
fn a_joint_as_a_table() {
    let builder = DHBuilder::new()
        .theta(sym("q_1"))
        .d(num(0.0))
        .a(sym("a_1").mul(num(2.0)))
        .alpha(Constant::Pi);
    let table = builder.to_table();
    assert_eq!(table.len(), 1);
    let expected = "\\begin{table}[H]\\label{table:DHParams}\\centering\n\t\\begin{tabular}{|c|c|c|c|c|}\\hline\n\
\t\t$j$\t&\t$\\theta$\t&\t$d$\t&\t$a$\t&\t$\\alpha$\t\\\\\\hline\n\
\t\t$1$\t&\t$q_1$\t&\t$0$\t&\t$ a_1 \\cdot 2 $\t&\t$\\pi$\\\\\n\
\t\\hline\n\t\\end{tabular}\n\t\\caption{good caption here}\n\\end{table}";
    assert_eq!(table.to_tex(), expected);
    let joint = builder.complete();
    assert_eq!(joint.alpha, Constant::Pi);
}

#[test]
fn tables_are_joined_row_after_row() {
    let first = DHTable::new(&sym("q_1"), &num(0.0), &sym("a_1"), &num(0.0));
    let second = DHTable::new(&sym("q_2"), &sym("d_2"), &num(0.0), &Sym::pi());
    let third = DHTable::from_row(DHRow {
        theta: sym("q_3").to_tex(None),
        d: "0.25".to_string(),
        a: "a_3".to_string(),
        alpha: "0".to_string(),
    });
    let table = first.extend(second).extend(third);
    assert_eq!(table.len(), 3);
    let tex = table.to_tex();
    let lines: Vec<&str> = tex.lines().collect();
    assert_eq!(lines.len(), 10);
    assert_eq!(lines[3], "\t\t$1$\t&\t$q_1$\t&\t$0$\t&\t$a_1$\t&\t$0$\\\\");
    assert_eq!(lines[4], "\t\t$2$\t&\t$q_2$\t&\t$d_2$\t&\t$0$\t&\t$\\pi$\\\\");
    assert_eq!(lines[5], "\t\t$3$\t&\t$q_3$\t&\t$0.25$\t&\t$a_3$\t&\t$0$\\\\");
    assert_eq!(lines[6], "\t\\hline");
    assert_eq!(lines[9], "\\end{table}");
}

#[test]
fn a_table_counts_its_joints_from_one() {
    let mut table = DHTable::new(&num(0.0), &num(0.0), &num(0.0), &num(0.0));
    for _ in 0..11 {
        table = table.extend(DHTable::new(&num(0.0), &num(0.0), &num(0.0), &num(0.0)));
    }
    let tex = table.to_tex();
    assert!(tex.contains("\t\t$9$\t&"));
    assert!(tex.contains("\t\t$10$\t&"));
    assert!(tex.contains("\t\t$12$\t&"));
    assert!(!tex.contains("\t\t$13$\t&"));
    assert!(!tex.contains("\t\t$0$\t&"));
}
