//! Joints by their Denavit-Hartenberg parameters.
//!
//! A joint is described by four parameters: the angle `theta` about the
//! previous z axis, the offset `d` along it, the length `a` of the common
//! normal, and the twist `alpha` about it. A builder takes them one by one,
//! in any order, and hands out the joint once it has all four. A table lists
//! the parameters of a chain of joints in LaTeX.
use crate::decore::{string_of, ToTex};
use crate::display::push_name;
use crate::literal::{nat_text, push_nat};
use vstd::prelude::*;

verus! {

/// One row of the table: the LaTeX of the four parameters of a joint.
pub struct DHRow {
    pub theta: String,
    pub d: String,
    pub a: String,
    pub alpha: String,
}

/// The parameters of a chain of joints, as a LaTeX table.
pub struct DHTable {
    rows: Vec<DHRow>,
}

/// The text of a row: the four parameters in order.
pub open spec fn row_view(row: DHRow) -> Seq<Seq<char>> {
    seq![row.theta@, row.d@, row.a@, row.alpha@]
}

/// The texts of the first `n` rows.
pub open spec fn rows_view(rows: Seq<DHRow>, n: nat) -> Seq<Seq<Seq<char>>>
    decreases n,
{
    if n == 0 || n > rows.len() {
        Seq::empty()
    } else {
        rows_view(rows, (n - 1) as nat).push(row_view(rows[n - 1]))
    }
}

/// The opening of the table, with the row of headings.
pub open spec fn table_head() -> Seq<char> {
    "\\begin{table}[H]\\label{table:DHParams}\\centering\n\t\\begin{tabular}{|c|c|c|c|c|}\\hline\n"@
        + "\t\t$j$\t&\t$\\theta$\t&\t$d$\t&\t$a$\t&\t$\\alpha$\t\\\\\\hline\n"@
}

/// The closing of the table.
pub open spec fn table_tail() -> Seq<char> {
    "\t\\hline\n\t\\end{tabular}\n\t\\caption{good caption here}\n\\end{table}"@
}

/// Between two cells of a row.
pub open spec fn table_gap() -> Seq<char> {
    "$\t&\t$"@
}

/// The LaTeX of the row of joint `j`.
pub open spec fn row_tex(j: nat, row: Seq<Seq<char>>) -> Seq<char>
    recommends
        row.len() == 4,
{
    "\t\t$"@ + nat_text(j) + table_gap() + row[0] + table_gap() + row[1] + table_gap() + row[2]
        + table_gap() + row[3] + "$\\\\\n"@
}

/// The LaTeX of the first `n` rows, the joints counted from one.
pub open spec fn rows_tex(rows: Seq<Seq<Seq<char>>>, n: nat) -> Seq<char>
    decreases n,
{
    if n == 0 || n > rows.len() {
        Seq::empty()
    } else {
        rows_tex(rows, (n - 1) as nat) + row_tex(n, rows[n - 1])
    }
}

proof fn lemma_rows_view(rows: Seq<DHRow>, n: nat)
    requires
        n <= rows.len(),
    ensures
        rows_view(rows, n).len() == n,
        forall|j: int| 0 <= j < n ==> rows_view(rows, n)[j] == row_view(rows[j]),
    decreases n,
{
    if n > 0 {
        lemma_rows_view(rows, (n - 1) as nat);
    }
}

impl View for DHTable {
    type V = Seq<Seq<Seq<char>>>;

    closed spec fn view(&self) -> Seq<Seq<Seq<char>>> {
        rows_view(self.rows@, self.rows@.len())
    }
}

impl DHTable {
    /// The table of one joint.
    pub fn new<Theta: ToTex, D: ToTex, A: ToTex, Alpha: ToTex>(
        theta: &Theta,
        d: &D,
        a: &A,
        alpha: &Alpha,
    ) -> (r: Self)
        ensures
            r@ == seq![seq![theta.tex(None), d.tex(None), a.tex(None), alpha.tex(None)]],
    {
        let row = DHRow {
            theta: theta.to_tex(None),
            d: d.to_tex(None),
            a: a.to_tex(None),
            alpha: alpha.to_tex(None),
        };
        let mut rows: Vec<DHRow> = Vec::new();
        rows.push(row);
        let r = DHTable { rows };
        proof {
            lemma_rows_view(r.rows@, 1);
            assert(r@ =~= seq![seq![theta.tex(None), d.tex(None), a.tex(None), alpha.tex(None)]]);
        }
        r
    }

    /// The table of one joint whose parameters are written out already.
    pub fn from_row(row: DHRow) -> (r: Self)
        ensures
            r@ == seq![row_view(row)],
    {
        let mut rows: Vec<DHRow> = Vec::new();
        rows.push(row);
        let r = DHTable { rows };
        proof {
            lemma_rows_view(r.rows@, 1);
            assert(r@ =~= seq![row_view(row)]);
        }
        r
    }

    /// This table with the rows of another after its own.
    pub fn extend(self, other: Self) -> (r: Self)
        ensures
            r@ == self@ + other@,
    {
        let mut rows = self.rows;
        let mut more = other.rows;
        let ghost first = rows@;
        let ghost second = more@;
        rows.append(&mut more);
        let r = DHTable { rows };
        proof {
            lemma_rows_view(first, first.len());
            lemma_rows_view(second, second.len());
            lemma_rows_view(r.rows@, r.rows@.len());
            assert(r@ =~= rows_view(first, first.len()) + rows_view(second, second.len()));
        }
        r
    }

    /// The number of joints.
    pub fn len(&self) -> (n: usize)
        ensures
            n == self@.len(),
    {
        proof {
            lemma_rows_view(self.rows@, self.rows@.len());
        }
        self.rows.len()
    }

    /// The table in LaTeX.
    pub fn to_tex(&self) -> (r: String)
        ensures
            r@ == table_head() + rows_tex(self@, self@.len()) + table_tail(),
    {
        let mut out: Vec<char> = Vec::new();
        push_name(
            &mut out,
            "\\begin{table}[H]\\label{table:DHParams}\\centering\n\t\\begin{tabular}{|c|c|c|c|c|}\\hline\n",
        );
        push_name(&mut out, "\t\t$j$\t&\t$\\theta$\t&\t$d$\t&\t$a$\t&\t$\\alpha$\t\\\\\\hline\n");
        assert(out@ =~= table_head());
        let ghost table = self@;
        proof {
            lemma_rows_view(self.rows@, self.rows@.len());
        }
        let mut i: usize = 0;
        assert(out@ =~= table_head() + rows_tex(table, 0));
        while i < self.rows.len()
            invariant
                i <= self.rows@.len(),
                table == self@,
                table.len() == self.rows@.len(),
                forall|j: int| 0 <= j < self.rows@.len() ==> table[j] == row_view(self.rows@[j]),
                out@ == table_head() + rows_tex(table, i as nat),
            decreases self.rows@.len() - i,
        {
            let ghost before = out@;
            push_name(&mut out, "\t\t$");
            push_nat(&mut out, i as u128 + 1);
            push_name(&mut out, "$\t&\t$");
            push_name(&mut out, self.rows[i].theta.as_str());
            push_name(&mut out, "$\t&\t$");
            push_name(&mut out, self.rows[i].d.as_str());
            push_name(&mut out, "$\t&\t$");
            push_name(&mut out, self.rows[i].a.as_str());
            push_name(&mut out, "$\t&\t$");
            push_name(&mut out, self.rows[i].alpha.as_str());
            push_name(&mut out, "$\\\\\n");
            i += 1;
            proof {
                assert(out@ =~= before + row_tex(i as nat, table[i - 1]));
                assert(out@ =~= table_head() + rows_tex(table, i as nat));
            }
        }
        push_name(
            &mut out,
            "\t\\hline\n\t\\end{tabular}\n\t\\caption{good caption here}\n\\end{table}",
        );
        assert(out@ =~= table_head() + rows_tex(table, table.len()) + table_tail());
        string_of(&out)
    }
}

/// The four parameters of a joint.
pub struct DHParams<Theta, D, A, Alpha> {
    pub theta: Theta,
    pub d: D,
    pub a: A,
    pub alpha: Alpha,
}

/// A joint in the making. The four flags say which parameters it has.
pub struct DHBuilder<
    const THETA: bool,
    const D: bool,
    const A: bool,
    const ALPHA: bool,
    Thetat,
    Dt,
    At,
    Alphat,
> {
    theta: Option<Thetat>,
    d: Option<Dt>,
    a: Option<At>,
    alpha: Option<Alphat>,
}

impl<
    const THETA: bool,
    const D: bool,
    const A: bool,
    const ALPHA: bool,
    Thetat,
    Dt,
    At,
    Alphat,
> DHBuilder<THETA, D, A, ALPHA, Thetat, Dt, At, Alphat> {
    /// The builder has the parameters that its flags say it has.
    pub closed spec fn wf(&self) -> bool {
        &&& THETA ==> self.theta is Some
        &&& D ==> self.d is Some
        &&& A ==> self.a is Some
        &&& ALPHA ==> self.alpha is Some
    }

    /// The angle, where the builder has one.
    pub closed spec fn theta_given(&self) -> Option<Thetat> {
        self.theta
    }

    /// The offset, where the builder has one.
    pub closed spec fn d_given(&self) -> Option<Dt> {
        self.d
    }

    /// The length, where the builder has one.
    pub closed spec fn a_given(&self) -> Option<At> {
        self.a
    }

    /// The twist, where the builder has one.
    pub closed spec fn alpha_given(&self) -> Option<Alphat> {
        self.alpha
    }
}

impl<Thetat, Dt, At, Alphat> DHBuilder<false, false, false, false, Thetat, Dt, At, Alphat> {
    /// A builder without any parameter.
    pub fn new() -> (r: Self)
        ensures
            r.wf(),
            r.theta_given() is None,
            r.d_given() is None,
            r.a_given() is None,
            r.alpha_given() is None,
    {
        DHBuilder { theta: None, d: None, a: None, alpha: None }
    }
}

impl<const D: bool, const A: bool, const ALPHA: bool, Thetat, Dt, At, Alphat> DHBuilder<
    false,
    D,
    A,
    ALPHA,
    Thetat,
    Dt,
    At,
    Alphat,
> {
    /// Gives the angle.
    pub fn theta(self, val: Thetat) -> (r: DHBuilder<true, D, A, ALPHA, Thetat, Dt, At, Alphat>)
        requires
            self.wf(),
        ensures
            r.wf(),
            r.theta_given() == Some(val),
            r.d_given() == self.d_given(),
            r.a_given() == self.a_given(),
            r.alpha_given() == self.alpha_given(),
    {
        DHBuilder { theta: Some(val), d: self.d, a: self.a, alpha: self.alpha }
    }
}

impl<const THETA: bool, const A: bool, const ALPHA: bool, Thetat, Dt, At, Alphat> DHBuilder<
    THETA,
    false,
    A,
    ALPHA,
    Thetat,
    Dt,
    At,
    Alphat,
> {
    /// Gives the offset.
    pub fn d(self, val: Dt) -> (r: DHBuilder<THETA, true, A, ALPHA, Thetat, Dt, At, Alphat>)
        requires
            self.wf(),
        ensures
            r.wf(),
            r.theta_given() == self.theta_given(),
            r.d_given() == Some(val),
            r.a_given() == self.a_given(),
            r.alpha_given() == self.alpha_given(),
    {
        DHBuilder { theta: self.theta, d: Some(val), a: self.a, alpha: self.alpha }
    }
}

impl<const THETA: bool, const D: bool, const ALPHA: bool, Thetat, Dt, At, Alphat> DHBuilder<
    THETA,
    D,
    false,
    ALPHA,
    Thetat,
    Dt,
    At,
    Alphat,
> {
    /// Gives the length.
    pub fn a(self, val: At) -> (r: DHBuilder<THETA, D, true, ALPHA, Thetat, Dt, At, Alphat>)
        requires
            self.wf(),
        ensures
            r.wf(),
            r.theta_given() == self.theta_given(),
            r.d_given() == self.d_given(),
            r.a_given() == Some(val),
            r.alpha_given() == self.alpha_given(),
    {
        DHBuilder { theta: self.theta, d: self.d, a: Some(val), alpha: self.alpha }
    }
}

impl<const THETA: bool, const D: bool, const A: bool, Thetat, Dt, At, Alphat> DHBuilder<
    THETA,
    D,
    A,
    false,
    Thetat,
    Dt,
    At,
    Alphat,
> {
    /// Gives the twist.
    pub fn alpha(self, val: Alphat) -> (r: DHBuilder<THETA, D, A, true, Thetat, Dt, At, Alphat>)
        requires
            self.wf(),
        ensures
            r.wf(),
            r.theta_given() == self.theta_given(),
            r.d_given() == self.d_given(),
            r.a_given() == self.a_given(),
            r.alpha_given() == Some(val),
    {
        DHBuilder { theta: self.theta, d: self.d, a: self.a, alpha: Some(val) }
    }
}

impl<Thetat, Dt, At, Alphat> DHBuilder<true, true, true, true, Thetat, Dt, At, Alphat> {
    /// The joint with the four parameters given.
    pub fn complete(self) -> (r: DHParams<Thetat, Dt, At, Alphat>)
        requires
            self.wf(),
        ensures
            Some(r.theta) == self.theta_given(),
            Some(r.d) == self.d_given(),
            Some(r.a) == self.a_given(),
            Some(r.alpha) == self.alpha_given(),
    {
        DHParams {
            theta: self.theta.unwrap(),
            d: self.d.unwrap(),
            a: self.a.unwrap(),
            alpha: self.alpha.unwrap(),
        }
    }

    /// The table of this joint.
    pub fn to_table(&self) -> (r: DHTable) where
        Thetat: ToTex,
        Dt: ToTex,
        At: ToTex,
        Alphat: ToTex,

        requires
            self.wf(),
        ensures
            r@ == seq![
                seq![
                    self.theta_given()->0.tex(None),
                    self.d_given()->0.tex(None),
                    self.a_given()->0.tex(None),
                    self.alpha_given()->0.tex(None),
                ],
            ],
    {
        match (&self.theta, &self.d, &self.a, &self.alpha) {
            (Some(theta), Some(d), Some(a), Some(alpha)) => DHTable::new(theta, d, a, alpha),
            _ => {
                proof {
                    assert(false);
                }
                DHTable { rows: Vec::new() }
            },
        }
    }
}

} // verus!
