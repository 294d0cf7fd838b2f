//! Poses with symbolic cells.
//!
//! A pose is a homogeneous transform from one coordinate frame to another:
//! four rows of four expressions. It is simplified cell by cell, and written
//! out as a LaTeX equation or a Matlab assignment.
use crate::decore::{push_tex, string_of, tex_of, ToMatlab, ToTex};
use crate::display::{push_name, push_text, text};
use crate::opt::{has_remainder, simplified, Opt};
use crate::literal::{ONE, POS_ZERO};
use crate::syms::{Sym, Term};
use vstd::prelude::*;

verus! {

/// A transform from frame `CURR` to frame `PREV`.
pub struct Pose<const PREV: usize, const CURR: usize> {
    rpr: Vec<Vec<Sym>>,
}

/// The values of the first `n` cells of a row.
pub open spec fn row_terms(row: Seq<Sym>, n: nat) -> Seq<Term>
    decreases n,
{
    if n == 0 || n > row.len() {
        Seq::empty()
    } else {
        row_terms(row, (n - 1) as nat).push(row[n - 1]@)
    }
}

/// The values of the first `n` rows.
pub open spec fn grid_terms(rows: Seq<Vec<Sym>>, n: nat) -> Seq<Seq<Term>>
    decreases n,
{
    if n == 0 || n > rows.len() {
        Seq::empty()
    } else {
        grid_terms(rows, (n - 1) as nat).push(row_terms(rows[n - 1]@, rows[n - 1]@.len()))
    }
}

/// Four rows of four cells.
pub open spec fn is_grid(m: Seq<Seq<Term>>) -> bool {
    m.len() == 4 && forall|i: int| 0 <= i < 4 ==> (#[trigger] m[i]).len() == 4
}

/// The first `n` cells of a row, each simplified.
pub open spec fn simplified_row(row: Seq<Term>, n: nat) -> Seq<Term>
    decreases n,
{
    if n == 0 || n > row.len() {
        Seq::empty()
    } else {
        simplified_row(row, (n - 1) as nat).push(simplified(row[n - 1]))
    }
}

/// The first `n` rows, each cell simplified.
pub open spec fn simplified_grid(m: Seq<Seq<Term>>, n: nat) -> Seq<Seq<Term>>
    decreases n,
{
    if n == 0 || n > m.len() {
        Seq::empty()
    } else {
        simplified_grid(m, (n - 1) as nat).push(simplified_row(m[n - 1], m[n - 1].len()))
    }
}

/// A simplified matrix has the size of the matrix, and each of its cells is
/// the simplified cell.
pub proof fn lemma_simplified_grid(m: Seq<Seq<Term>>, n: nat)
    requires
        n <= m.len(),
    ensures
        simplified_grid(m, n).len() == n,
        forall|i: int| 0 <= i < n ==> (#[trigger] simplified_grid(m, n)[i]).len() == m[i].len(),
        forall|i: int, j: int|
            0 <= i < n && 0 <= j < m[i].len() ==> #[trigger] simplified_grid(m, n)[i][j]
                == simplified(m[i][j]),
    decreases n,
{
    if n > 0 {
        lemma_simplified_grid(m, (n - 1) as nat);
        lemma_simplified_row(m[n - 1], m[n - 1].len());
    }
}

/// A simplified row has the length of the row, and each of its cells is the
/// simplified cell.
pub proof fn lemma_simplified_row(row: Seq<Term>, n: nat)
    requires
        n <= row.len(),
    ensures
        simplified_row(row, n).len() == n,
        forall|j: int| 0 <= j < n ==> #[trigger] simplified_row(row, n)[j] == simplified(row[j]),
    decreases n,
{
    if n > 0 {
        lemma_simplified_row(row, (n - 1) as nat);
    }
}

/// Whether one of the first `n` cells of a row holds a remainder.
pub open spec fn row_has_remainder(row: Seq<Term>, n: nat) -> bool
    decreases n,
{
    if n == 0 || n > row.len() {
        false
    } else {
        row_has_remainder(row, (n - 1) as nat) || has_remainder(row[n - 1])
    }
}

/// Whether a cell in one of the first `n` rows holds a remainder.
pub open spec fn grid_has_remainder(m: Seq<Seq<Term>>, n: nat) -> bool
    decreases n,
{
    if n == 0 || n > m.len() {
        false
    } else {
        grid_has_remainder(m, (n - 1) as nat) || row_has_remainder(m[n - 1], m[n - 1].len())
    }
}

/// ` & `
pub open spec fn cell_gap() -> Seq<char> {
    seq![' ', '&', ' ']
}

/// The LaTeX of the first `n` cells of a row, ` & ` between neighbours.
pub open spec fn row_tex(row: Seq<Term>, n: nat) -> Seq<char>
    decreases n,
{
    if n == 0 || n > row.len() {
        Seq::empty()
    } else if n == 1 {
        tex_of(row[0], true)
    } else {
        row_tex(row, (n - 1) as nat) + cell_gap() + tex_of(row[n - 1], true)
    }
}

/// The LaTeX of the first `n` rows: each after two tabs, and ended by `\\`
/// and a line break.
pub open spec fn rows_tex(m: Seq<Seq<Term>>, n: nat) -> Seq<char>
    decreases n,
{
    if n == 0 || n > m.len() {
        Seq::empty()
    } else {
        rows_tex(m, (n - 1) as nat) + seq!['\t', '\t'] + row_tex(m[n - 1], m[n - 1].len())
            + seq!['\\', '\\', '\n']
    }
}

/// One `c` for each column.
pub open spec fn column_marks(columns: nat) -> Seq<char> {
    Seq::new(columns, |i: int| 'c')
}

/// The opening of the equation of a matrix with so many columns, with its
/// label.
pub open spec fn matrix_head(identifier: Option<&'static str>, columns: nat) -> Seq<char> {
    match identifier {
        Some(name) => "\\begin{equation}\\label{ "@ + name@ + " }\n\t"@ + name@ + " = "@
            + "\\left[\\begin{array}{"@ + column_marks(columns) + "}\n"@,
        None => "\\begin{equation}\\label{  }\n\t"@ + "\\left[\\begin{array}{"@
            + column_marks(columns) + "}\n"@,
    }
}

/// The opening of the equation of a pose, with its label.
pub open spec fn tex_head(identifier: Option<&'static str>) -> Seq<char> {
    matrix_head(identifier, 4)
}

/// The LaTeX equation of a matrix of expressions with so many columns.
pub open spec fn matrix_tex(
    m: Seq<Seq<Term>>,
    columns: nat,
    identifier: Option<&'static str>,
) -> Seq<char> {
    matrix_head(identifier, columns) + rows_tex(m, m.len()) + tex_tail()
}

/// The Matlab assignment of a matrix of expressions.
pub open spec fn matrix_matlab(m: Seq<Seq<Term>>, identifier: &'static str) -> Seq<char> {
    identifier@ + seq!['\t', '=', '\t', '['] + rows_matlab(m, m.len()) + seq![']', ';', '\n']
}

/// The closing of the equation.
pub open spec fn tex_tail() -> Seq<char> {
    "\t\\end{array}\\right]\n\\end{equation}\n"@
}

/// The Matlab text of the first `n` cells of a row, commas between
/// neighbours.
pub open spec fn row_matlab(row: Seq<Term>, n: nat) -> Seq<char>
    decreases n,
{
    if n == 0 || n > row.len() {
        Seq::empty()
    } else if n == 1 {
        text(row[0])
    } else {
        row_matlab(row, (n - 1) as nat) + seq![','] + text(row[n - 1])
    }
}

/// The Matlab text of the first `n` rows, each in brackets and ended by a
/// semicolon.
pub open spec fn rows_matlab(m: Seq<Seq<Term>>, n: nat) -> Seq<char>
    decreases n,
{
    if n == 0 || n > m.len() {
        Seq::empty()
    } else {
        rows_matlab(m, (n - 1) as nat) + seq!['['] + row_matlab(m[n - 1], m[n - 1].len())
            + seq![']', ';']
    }
}

fn push_str(out: &mut Vec<char>, s: &str)
    ensures
        final(out)@ == old(out)@ + s@,
{
    push_name(out, s);
}

proof fn lemma_simplified_row_clean(row: Seq<Term>, n: nat)
    requires
        n <= row.len(),
        !row_has_remainder(row, n),
    ensures
        simplified_row(row, n).len() == n,
        !row_has_remainder(simplified_row(row, n), n),
    decreases n,
{
    if n > 0 {
        lemma_simplified_row_clean(row, (n - 1) as nat);
        crate::clean::lemma_clean_simplified(row[n - 1]);
        lemma_row_remainder_prefix(
            simplified_row(row, (n - 1) as nat),
            simplified_row(row, n),
            (n - 1) as nat,
        );
    }
}

proof fn lemma_row_remainder_prefix(a: Seq<Term>, b: Seq<Term>, n: nat)
    requires
        n <= a.len(),
        n <= b.len(),
        forall|j: int| 0 <= j < n ==> a[j] == b[j],
    ensures
        row_has_remainder(a, n) == row_has_remainder(b, n),
    decreases n,
{
    if n > 0 {
        lemma_row_remainder_prefix(a, b, (n - 1) as nat);
    }
}

proof fn lemma_grid_remainder_prefix(a: Seq<Seq<Term>>, b: Seq<Seq<Term>>, n: nat)
    requires
        n <= a.len(),
        n <= b.len(),
        forall|j: int| 0 <= j < n ==> a[j] == b[j],
    ensures
        grid_has_remainder(a, n) == grid_has_remainder(b, n),
    decreases n,
{
    if n > 0 {
        lemma_grid_remainder_prefix(a, b, (n - 1) as nat);
    }
}

proof fn lemma_simplified_grid_clean(m: Seq<Seq<Term>>, n: nat)
    requires
        n <= m.len(),
        !grid_has_remainder(m, n),
    ensures
        simplified_grid(m, n).len() == n,
        !grid_has_remainder(simplified_grid(m, n), n),
    decreases n,
{
    if n > 0 {
        lemma_simplified_grid_clean(m, (n - 1) as nat);
        lemma_simplified_row_clean(m[n - 1], m[n - 1].len());
        lemma_grid_remainder_prefix(
            simplified_grid(m, (n - 1) as nat),
            simplified_grid(m, n),
            (n - 1) as nat,
        );
    }
}

fn simplify_row(row: Vec<Sym>) -> (r: Vec<Sym>)
    requires
        !row_has_remainder(row_terms(row@, row@.len()), row@.len()),
    ensures
        row_terms(r@, r@.len()) == simplified_row(row_terms(row@, row@.len()), row@.len()),
        r@.len() == row@.len(),
{
    let ghost cells = row_terms(row@, row@.len());
    let mut out: Vec<Sym> = Vec::new();
    let mut i: usize = 0;
    proof {
        lemma_row_terms(row@, row@.len());
    }
    while i < row.len()
        invariant
            i <= row.len(),
            out@.len() == i,
            cells == row_terms(row@, row@.len()),
            cells.len() == row@.len(),
            forall|j: int| 0 <= j < row@.len() ==> cells[j] == row@[j]@,
            !row_has_remainder(cells, row@.len()),
            row_terms(out@, i as nat) == simplified_row(cells, i as nat),
        decreases row.len() - i,
    {
        proof {
            lemma_row_remainder(cells, i as int, row@.len());
        }
        let ghost before = out@;
        out.push(row[i].duplicate().opt());
        i += 1;
        proof {
            lemma_row_terms_prefix(before, out@, (i - 1) as nat);
        }
    }
    out
}

proof fn lemma_row_terms(row: Seq<Sym>, n: nat)
    requires
        n <= row.len(),
    ensures
        row_terms(row, n).len() == n,
        forall|j: int| 0 <= j < n ==> row_terms(row, n)[j] == row[j]@,
    decreases n,
{
    if n > 0 {
        lemma_row_terms(row, (n - 1) as nat);
    }
}

proof fn lemma_row_terms_prefix(a: Seq<Sym>, b: Seq<Sym>, n: nat)
    requires
        n <= a.len(),
        n <= b.len(),
        forall|j: int| 0 <= j < n ==> a[j] == b[j],
    ensures
        row_terms(a, n) == row_terms(b, n),
    decreases n,
{
    if n > 0 {
        lemma_row_terms_prefix(a, b, (n - 1) as nat);
    }
}

proof fn lemma_row_remainder(row: Seq<Term>, i: int, n: nat)
    requires
        0 <= i < n <= row.len(),
        !row_has_remainder(row, n),
    ensures
        !has_remainder(row[i]),
    decreases n,
{
    if n - 1 > i {
        lemma_row_remainder(row, i, (n - 1) as nat);
    }
}

proof fn lemma_grid_terms(rows: Seq<Vec<Sym>>, n: nat)
    requires
        n <= rows.len(),
    ensures
        grid_terms(rows, n).len() == n,
        forall|j: int|
            0 <= j < n ==> grid_terms(rows, n)[j] == row_terms(rows[j]@, rows[j]@.len()),
    decreases n,
{
    if n > 0 {
        lemma_grid_terms(rows, (n - 1) as nat);
    }
}

proof fn lemma_grid_terms_prefix(a: Seq<Vec<Sym>>, b: Seq<Vec<Sym>>, n: nat)
    requires
        n <= a.len(),
        n <= b.len(),
        forall|j: int| 0 <= j < n ==> a[j] == b[j],
    ensures
        grid_terms(a, n) == grid_terms(b, n),
    decreases n,
{
    if n > 0 {
        lemma_grid_terms_prefix(a, b, (n - 1) as nat);
    }
}

proof fn lemma_grid_remainder(m: Seq<Seq<Term>>, i: int, n: nat)
    requires
        0 <= i < n <= m.len(),
        !grid_has_remainder(m, n),
    ensures
        !row_has_remainder(m[i], m[i].len()),
    decreases n,
{
    if n - 1 > i {
        lemma_grid_remainder(m, i, (n - 1) as nat);
    }
}

fn push_row_tex(out: &mut Vec<char>, row: &Vec<Sym>)
    ensures
        final(out)@ == old(out)@ + row_tex(row_terms(row@, row@.len()), row@.len()),
{
    let ghost cells = row_terms(row@, row@.len());
    let mut i: usize = 0;
    proof {
        lemma_row_terms(row@, row@.len());
        assert(out@ =~= old(out)@ + row_tex(cells, 0));
    }
    while i < row.len()
        invariant
            i <= row.len(),
            cells.len() == row@.len(),
            forall|j: int| 0 <= j < row@.len() ==> cells[j] == row@[j]@,
            out@ == old(out)@ + row_tex(cells, i as nat),
        decreases row.len() - i,
    {
        if i > 0 {
            out.push(' ');
            out.push('&');
            out.push(' ');
        }
        push_tex(out, &row[i], true);
        i += 1;
        assert(out@ =~= old(out)@ + row_tex(cells, i as nat));
    }
}

fn push_row_matlab(out: &mut Vec<char>, row: &Vec<Sym>)
    ensures
        final(out)@ == old(out)@ + row_matlab(row_terms(row@, row@.len()), row@.len()),
{
    let ghost cells = row_terms(row@, row@.len());
    let mut i: usize = 0;
    proof {
        lemma_row_terms(row@, row@.len());
        assert(out@ =~= old(out)@ + row_matlab(cells, 0));
    }
    while i < row.len()
        invariant
            i <= row.len(),
            cells.len() == row@.len(),
            forall|j: int| 0 <= j < row@.len() ==> cells[j] == row@[j]@,
            out@ == old(out)@ + row_matlab(cells, i as nat),
        decreases row.len() - i,
    {
        if i > 0 {
            out.push(',');
        }
        push_text(out, &row[i]);
        i += 1;
        assert(out@ =~= old(out)@ + row_matlab(cells, i as nat));
    }
}

impl<const PREV: usize, const CURR: usize> View for Pose<PREV, CURR> {
    type V = Seq<Seq<Term>>;

    closed spec fn view(&self) -> Seq<Seq<Term>> {
        grid_terms(self.rpr@, self.rpr@.len())
    }
}

impl<const PREV: usize, const CURR: usize> Pose<PREV, CURR> {
    /// Four rows of four cells.
    pub open spec fn wf(&self) -> bool {
        is_grid(self@)
    }

    /// The pose with the given rows; nothing unless there are four rows of
    /// four cells.
    pub fn new(rows: Vec<Vec<Sym>>) -> (r: Option<Self>)
        ensures
            match r {
                Some(p) => p.wf() && p@ == grid_terms(rows@, rows@.len()),
                None => !is_grid(grid_terms(rows@, rows@.len())),
            },
    {
        proof {
            lemma_grid_terms(rows@, rows@.len());
        }
        if rows.len() != 4 {
            return None;
        }
        let mut i: usize = 0;
        while i < 4
            invariant
                i <= 4,
                rows@.len() == 4,
                forall|j: int| 0 <= j < i ==> (#[trigger] rows@[j])@.len() == 4,
            decreases 4 - i,
        {
            if rows[i].len() != 4 {
                proof {
                    lemma_grid_terms(rows@, rows@.len());
                    lemma_row_terms(rows@[i as int]@, rows@[i as int]@.len());
                    assert(grid_terms(rows@, rows@.len())[i as int].len() != 4);
                }
                return None;
            }
            i += 1;
        }
        proof {
            assert forall|j: int| 0 <= j < 4 implies (#[trigger] grid_terms(
                rows@,
                rows@.len(),
            )[j]).len() == 4 by {
                lemma_row_terms(rows@[j]@, rows@[j]@.len());
            }
        }
        Some(Pose { rpr: rows })
    }

    /// The pose that moves by `(x, y, z)` and turns nothing.
    pub fn from_translation(x: Sym, y: Sym, z: Sym) -> (r: Self)
        ensures
            r.wf(),
            r@ == seq![
                seq![Term::Number(ONE), Term::Number(POS_ZERO), Term::Number(POS_ZERO), x@],
                seq![Term::Number(POS_ZERO), Term::Number(ONE), Term::Number(POS_ZERO), y@],
                seq![Term::Number(POS_ZERO), Term::Number(POS_ZERO), Term::Number(ONE), z@],
                seq![
                    Term::Number(POS_ZERO),
                    Term::Number(POS_ZERO),
                    Term::Number(POS_ZERO),
                    Term::Number(ONE),
                ],
            ],
    {
        let rows = vec![
            vec![Sym::one(), Sym::zero(), Sym::zero(), x],
            vec![Sym::zero(), Sym::one(), Sym::zero(), y],
            vec![Sym::zero(), Sym::zero(), Sym::one(), z],
            vec![Sym::zero(), Sym::zero(), Sym::zero(), Sym::one()],
        ];
        let r = Pose { rpr: rows };
        proof {
            lemma_grid_terms(r.rpr@, 4);
            reveal_with_fuel(row_terms, 5);
            let want = seq![
                seq![Term::Number(ONE), Term::Number(POS_ZERO), Term::Number(POS_ZERO), x@],
                seq![Term::Number(POS_ZERO), Term::Number(ONE), Term::Number(POS_ZERO), y@],
                seq![Term::Number(POS_ZERO), Term::Number(POS_ZERO), Term::Number(ONE), z@],
                seq![
                    Term::Number(POS_ZERO),
                    Term::Number(POS_ZERO),
                    Term::Number(POS_ZERO),
                    Term::Number(ONE),
                ],
            ];
            assert forall|i: int| 0 <= i < 4 implies r@[i] =~= want[i] by {
                lemma_row_terms(r.rpr@[i]@, 4);
            }
            assert(r@ =~= want);
        }
        r
    }

    /// The pose that turns as the three rows of three of `r` say, and moves
    /// nothing; nothing unless `r` has three rows of three cells.
    pub fn rot(r: Vec<Vec<Sym>>) -> (p: Option<Self>)
        ensures
            match p {
                Some(pose) => {
                    &&& pose.wf()
                    &&& r@.len() == 3
                    &&& forall|i: int| 0 <= i < 3 ==> (#[trigger] r@[i])@.len() == 3
                    &&& forall|i: int, j: int|
                        0 <= i < 3 && 0 <= j < 3 ==> pose@[i][j] == r@[i]@[j]@
                    &&& forall|i: int| 0 <= i < 3 ==> pose@[i][3] == Term::Number(POS_ZERO)
                    &&& forall|j: int| 0 <= j < 3 ==> pose@[3][j] == Term::Number(POS_ZERO)
                    &&& pose@[3][3] == Term::Number(ONE)
                },
                None => !(r@.len() == 3 && forall|i: int|
                    0 <= i < 3 ==> (#[trigger] r@[i])@.len() == 3),
            },
    {
        if r.len() != 3 {
            return None;
        }
        let mut i: usize = 0;
        while i < 3
            invariant
                i <= 3,
                r@.len() == 3,
                forall|j: int| 0 <= j < i ==> (#[trigger] r@[j])@.len() == 3,
            decreases 3 - i,
        {
            if r[i].len() != 3 {
                return None;
            }
            i += 1;
        }
        let mut rows: Vec<Vec<Sym>> = Vec::new();
        let mut i: usize = 0;
        while i < 3
            invariant
                i <= 3,
                r@.len() == 3,
                forall|j: int| 0 <= j < 3 ==> (#[trigger] r@[j])@.len() == 3,
                rows@.len() == i,
                forall|k: int| 0 <= k < i ==> (#[trigger] rows@[k])@.len() == 4,
                forall|k: int, j: int|
                    0 <= k < i && 0 <= j < 3 ==> (#[trigger] rows@[k]@[j])@ == r@[k]@[j]@,
                forall|k: int| 0 <= k < i ==> (#[trigger] rows@[k]@[3])@ == Term::Number(POS_ZERO),
            decreases 3 - i,
        {
            let row = vec![r[i][0].duplicate(), r[i][1].duplicate(), r[i][2].duplicate(), Sym::zero()];
            rows.push(row);
            i += 1;
        }
        rows.push(vec![Sym::zero(), Sym::zero(), Sym::zero(), Sym::one()]);
        let pose = Pose { rpr: rows };
        proof {
            lemma_grid_terms(pose.rpr@, 4);
            assert forall|k: int| 0 <= k < 4 implies (#[trigger] pose@[k]).len() == 4 by {
                lemma_row_terms(pose.rpr@[k]@, 4);
            }
            assert forall|k: int, j: int| 0 <= k < 4 && 0 <= j < 4 implies pose@[k][j]
                == pose.rpr@[k]@[j]@ by {
                lemma_row_terms(pose.rpr@[k]@, 4);
            }
        }
        Some(pose)
    }

    /// The rows of this pose.
    pub fn into_rows(self) -> (rows: Vec<Vec<Sym>>)
        ensures
            grid_terms(rows@, rows@.len()) == self@,
    {
        self.rpr
    }

    /// A copy of the cell in a row and a column.
    pub fn cell(&self, row: usize, column: usize) -> (r: Sym)
        requires
            self.wf(),
            row < 4,
            column < 4,
        ensures
            r@ == self@[row as int][column as int],
    {
        proof {
            lemma_grid_terms(self.rpr@, self.rpr@.len());
            assert(self@.len() == 4);
            assert(self.rpr@.len() == 4);
            lemma_row_terms(self.rpr@[row as int]@, self.rpr@[row as int]@.len());
            assert(self@[row as int].len() == 4);
            assert(self.rpr@[row as int]@.len() == 4);
        }
        self.rpr[row][column].duplicate()
    }

    /// Whether a cell holds a remainder.
    pub open spec fn holds_remainder(&self) -> bool {
        grid_has_remainder(self@, self@.len())
    }
}

impl<const CURR: usize> Pose<0, CURR> {
    /// The forward kinematics: where the origin of frame `CURR` lies in the
    /// world frame.
    pub fn fk(self) -> (r: (Sym, Sym, Sym))
        requires
            self.wf(),
        ensures
            r.0@ == self@[0][3],
            r.1@ == self@[1][3],
            r.2@ == self@[2][3],
    {
        (self.cell(0, 3), self.cell(1, 3), self.cell(2, 3))
    }
}

impl<const PREV: usize, const CURR: usize> Opt for Pose<PREV, CURR> {
    open spec fn accepted(self) -> bool {
        !self.holds_remainder()
    }

    open spec fn simplifies_to(self, r: Self) -> bool {
        r@ == simplified_grid(self@, self@.len())
    }

    fn opt(self) -> (r: Self) {
        let ghost m = self@;
        proof {
            lemma_grid_terms(self.rpr@, self.rpr@.len());
            lemma_simplified_grid_clean(m, m.len());
        }
        let rows = self.rpr;
        let mut out: Vec<Vec<Sym>> = Vec::new();
        let mut i: usize = 0;
        proof {
            lemma_grid_terms(rows@, rows@.len());
        }
        while i < rows.len()
            invariant
                i <= rows.len(),
                out@.len() == i,
                m == grid_terms(rows@, rows@.len()),
                m.len() == rows@.len(),
                forall|j: int|
                    0 <= j < rows@.len() ==> m[j] == row_terms(rows@[j]@, rows@[j]@.len()),
                !grid_has_remainder(m, m.len()),
                grid_terms(out@, i as nat) == simplified_grid(m, i as nat),
            decreases rows.len() - i,
        {
            proof {
                lemma_grid_remainder(m, i as int, m.len());
                lemma_row_terms(rows@[i as int]@, rows@[i as int]@.len());
            }
            let ghost before = out@;
            let row = crate::syms::duplicate_all(&rows[i]);
            proof {
                assert(row@.len() == rows@[i as int]@.len()) by {
                    assert(crate::syms::terms_of(row@).len() == crate::syms::terms_of(
                        rows@[i as int]@,
                    ).len());
                }
                assert forall|j: int| 0 <= j < row@.len() implies row@[j]@ == rows@[i as int]@[j]@ by {
                    assert(crate::syms::terms_of(row@)[j] == crate::syms::terms_of(
                        rows@[i as int]@,
                    )[j]);
                }
                lemma_row_terms(row@, row@.len());
                assert(row_terms(row@, row@.len()) =~= row_terms(
                    rows@[i as int]@,
                    rows@[i as int]@.len(),
                ));
            }
            out.push(simplify_row(row));
            i += 1;
            proof {
                lemma_grid_terms_prefix(before, out@, (i - 1) as nat);
            }
        }
        Pose { rpr: out }
    }
}

/// The rows of a matrix of expressions, of any size, as a LaTeX equation
/// with so many columns.
pub fn matrix_to_tex(
    rows: &Vec<Vec<Sym>>,
    columns: usize,
    identifier: Option<&'static str>,
) -> (r: String)
    ensures
        r@ == matrix_tex(grid_terms(rows@, rows@.len()), columns as nat, identifier),
{
    let mut out: Vec<char> = Vec::new();
    match identifier {
        Some(name) => {
            push_str(&mut out, "\\begin{equation}\\label{ ");
            push_str(&mut out, name);
            push_str(&mut out, " }\n\t");
            push_str(&mut out, name);
            push_str(&mut out, " = ");
        },
        None => {
            push_str(&mut out, "\\begin{equation}\\label{  }\n\t");
        },
    }
    push_str(&mut out, "\\left[\\begin{array}{");
    let ghost start = out@;
    let mut k: usize = 0;
    assert(out@ =~= start + column_marks(0));
    while k < columns
        invariant
            k <= columns,
            out@ == start + column_marks(k as nat),
        decreases columns - k,
    {
        out.push('c');
        k += 1;
        assert(out@ =~= start + column_marks(k as nat));
    }
    push_str(&mut out, "}\n");
    let ghost head = matrix_head(identifier, columns as nat);
    assert(out@ =~= head);
    let ghost m = grid_terms(rows@, rows@.len());
    proof {
        lemma_grid_terms(rows@, rows@.len());
    }
    let mut i: usize = 0;
    assert(out@ =~= head + rows_tex(m, 0));
    while i < rows.len()
        invariant
            i <= rows@.len(),
            m == grid_terms(rows@, rows@.len()),
            m.len() == rows@.len(),
            forall|j: int| 0 <= j < rows@.len() ==> m[j] == row_terms(rows@[j]@, rows@[j]@.len()),
            out@ == head + rows_tex(m, i as nat),
        decreases rows@.len() - i,
    {
        proof {
            lemma_row_terms(rows@[i as int]@, rows@[i as int]@.len());
        }
        out.push('\t');
        out.push('\t');
        push_row_tex(&mut out, &rows[i]);
        out.push('\\');
        out.push('\\');
        out.push('\n');
        i += 1;
        assert(out@ =~= head + rows_tex(m, i as nat));
    }
    push_str(&mut out, "\t\\end{array}\\right]\n\\end{equation}\n");
    assert(out@ =~= matrix_tex(m, columns as nat, identifier));
    string_of(&out)
}

/// The rows of a matrix of expressions, of any size, as a Matlab
/// assignment.
pub fn matrix_to_matlab(rows: &Vec<Vec<Sym>>, identifier: &'static str) -> (r: String)
    ensures
        r@ == matrix_matlab(grid_terms(rows@, rows@.len()), identifier),
{
    let mut out: Vec<char> = Vec::new();
    push_str(&mut out, identifier);
    out.push('\t');
    out.push('=');
    out.push('\t');
    out.push('[');
    let ghost m = grid_terms(rows@, rows@.len());
    let ghost head = identifier@ + seq!['\t', '=', '\t', '['];
    proof {
        lemma_grid_terms(rows@, rows@.len());
    }
    let mut i: usize = 0;
    assert(out@ =~= head + rows_matlab(m, 0));
    while i < rows.len()
        invariant
            i <= rows@.len(),
            m == grid_terms(rows@, rows@.len()),
            m.len() == rows@.len(),
            forall|j: int| 0 <= j < rows@.len() ==> m[j] == row_terms(rows@[j]@, rows@[j]@.len()),
            out@ == head + rows_matlab(m, i as nat),
        decreases rows@.len() - i,
    {
        proof {
            lemma_row_terms(rows@[i as int]@, rows@[i as int]@.len());
        }
        out.push('[');
        push_row_matlab(&mut out, &rows[i]);
        out.push(']');
        out.push(';');
        i += 1;
        assert(out@ =~= head + rows_matlab(m, i as nat));
    }
    out.push(']');
    out.push(';');
    out.push('\n');
    assert(out@ =~= matrix_matlab(m, identifier));
    string_of(&out)
}

impl<const PREV: usize, const CURR: usize> ToTex for Pose<PREV, CURR> {
    open spec fn tex(&self, identifier: Option<&'static str>) -> Seq<char> {
        matrix_tex(self@, 4, identifier)
    }

    fn to_tex(&self, identifier: Option<&'static str>) -> (r: String) {
        matrix_to_tex(&self.rpr, 4, identifier)
    }
}

impl<const PREV: usize, const CURR: usize> ToMatlab for Pose<PREV, CURR> {
    open spec fn matlab(&self, identifier: &'static str) -> Seq<char> {
        matrix_matlab(self@, identifier)
    }

    fn to_matlab(&self, identifier: &'static str) -> (r: String) {
        matrix_to_matlab(&self.rpr, identifier)
    }
}

} // verus!
