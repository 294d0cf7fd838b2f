//! LaTeX without empty groups.
//!
//! The LaTeX of an expression holds no empty group, `{}`, as long as no name
//! in the expression brings one: a name must not be empty, hold `{}`, begin
//! with `}` or end with `{`.
use crate::decore::{
    close_bracket, dot_sign, needs_brackets, open_bracket, tex_body, tex_joined, tex_of,
};
use crate::literal::{
    lit_is_nan, lit_magnitude, lit_scale, lit_sign, lit_significand, lit_text, magnitude_text,
    INFINITY,
};
use crate::shortest::{best_count, best_scale, is_decimal_char, lemma_decimal_text};
use crate::names::{any_has_untidy_name, has_untidy_name};
use crate::opt::simplified;
use crate::pose::{
    cell_gap, column_marks, lemma_simplified_grid, matrix_head, matrix_tex, row_tex, rows_tex,
    simplified_grid, tex_tail,
};
use crate::syms::Term;
use vstd::prelude::*;

verus! {

/// The text holds no `{` with a `}` right after it.
pub open spec fn no_empty_group(s: Seq<char>) -> bool {
    forall|i: int| 0 <= i && i + 1 < s.len() ==> !(#[trigger] s[i] == '{' && s[i + 1] == '}')
}

/// The text holds no brace at all.
pub open spec fn brace_free(s: Seq<char>) -> bool {
    forall|i: int| 0 <= i < s.len() ==> #[trigger] s[i] != '{' && s[i] != '}'
}

/// The text is not empty, holds no empty group, and makes none with what
/// stands before or after it: it does not begin with `}` or end with `{`.
pub open spec fn tidy(s: Seq<char>) -> bool {
    &&& s.len() > 0
    &&& no_empty_group(s)
    &&& s[0] != '}'
    &&& s.last() != '{'
}

/// The text is tidy or empty.
pub open spec fn tidy_or_empty(s: Seq<char>) -> bool {
    s.len() == 0 || tidy(s)
}

/// Two texts without empty groups, one after the other, hold none, unless
/// the first ends with `{` and the second begins with `}`.
pub proof fn lemma_glue(a: Seq<char>, b: Seq<char>)
    requires
        no_empty_group(a),
        no_empty_group(b),
        a.len() > 0 && b.len() > 0 ==> !(a.last() == '{' && b[0] == '}'),
    ensures
        no_empty_group(a + b),
        (a + b).len() == a.len() + b.len(),
        a.len() > 0 ==> (a + b)[0] == a[0],
        a.len() == 0 && b.len() > 0 ==> (a + b)[0] == b[0],
        b.len() > 0 ==> (a + b).last() == b.last(),
        b.len() == 0 && a.len() > 0 ==> (a + b).last() == a.last(),
{
    assert forall|i: int| 0 <= i && i + 1 < (a + b).len() implies !(#[trigger] (a + b)[i] == '{'
        && (a + b)[i + 1] == '}') by {
        if i + 1 < a.len() {
            assert((a + b)[i] == a[i]);
            assert((a + b)[i + 1] == a[i + 1]);
        } else if i >= a.len() {
            assert((a + b)[i] == b[i - a.len()]);
            assert((a + b)[i + 1] == b[i - a.len() + 1]);
        } else {
            assert((a + b)[i] == a.last());
            assert((a + b)[i + 1] == b[0]);
        }
    }
}

/// Tidy texts, one after the other, are tidy; an empty one among them
/// changes nothing.
pub proof fn lemma_tidy_joined(a: Seq<char>, b: Seq<char>)
    requires
        tidy_or_empty(a),
        tidy_or_empty(b),
    ensures
        tidy_or_empty(a + b),
        tidy(a) || tidy(b) ==> tidy(a + b),
{
    lemma_glue(a, b);
}

/// A text without braces that is not empty is tidy.
pub proof fn lemma_brace_free(s: Seq<char>)
    requires
        brace_free(s),
    ensures
        tidy_or_empty(s),
        no_empty_group(s),
{
}

proof fn lemma_brace_free_joined(a: Seq<char>, b: Seq<char>)
    requires
        brace_free(a),
        brace_free(b),
    ensures
        brace_free(a + b),
{
    assert forall|i: int| 0 <= i < (a + b).len() implies #[trigger] (a + b)[i] != '{' && (a + b)[i]
        != '}' by {
        if i < a.len() {
            assert((a + b)[i] == a[i]);
        } else {
            assert((a + b)[i] == b[i - a.len()]);
        }
    }
}

proof fn lemma_magnitude_text(m: nat, e: int)
    ensures
        brace_free(magnitude_text(m, e)),
        magnitude_text(m, e).len() > 0,
{
    if m > 0 {
        lemma_decimal_text(best_count(m, e), best_scale(m, e));
        let s = magnitude_text(m, e);
        assert forall|i: int| 0 <= i < s.len() implies #[trigger] s[i] != '{' && s[i] != '}' by {
            assert(is_decimal_char(s[i]));
        }
    }
}

/// The text of a literal is tidy: it holds digits, a sign and a point, or
/// the name of what is no number.
pub proof fn lemma_literal_is_tidy(b: u32)
    ensures
        brace_free(lit_text(b)),
        tidy(lit_text(b)),
{
    if lit_is_nan(b) {
    } else if lit_magnitude(b) == INFINITY {
    } else {
        lemma_magnitude_text(lit_significand(b), lit_scale(b));
        if lit_sign(b) {
            lemma_brace_free_joined(seq!['-'], magnitude_text(lit_significand(b), lit_scale(b)));
        }
    }
    lemma_brace_free(lit_text(b));
}

/// Every name in the expression is tidy.
pub open spec fn names_are_tidy(t: Term) -> bool {
    !has_untidy_name(t)
}

/// Every name in the first `n` members is tidy.
pub open spec fn names_are_tidy_upto(v: Seq<Term>, n: nat) -> bool {
    !any_has_untidy_name(v, n)
}

proof fn lemma_names_upto(v: Seq<Term>, n: nat, m: nat)
    requires
        m <= n <= v.len(),
        names_are_tidy_upto(v, n),
    ensures
        names_are_tidy_upto(v, m),
        m > 0 ==> names_are_tidy(v[m - 1]),
    decreases n,
{
    if m < n {
        lemma_names_upto(v, (n - 1) as nat, m);
    }
}

/// Three texts in a row: what stands around the middle one may end with `{`
/// and begin with `}`, as long as the middle one is tidy.
proof fn lemma_wrapped(a: Seq<char>, x: Seq<char>, b: Seq<char>)
    requires
        a.len() > 0,
        b.len() > 0,
        no_empty_group(a),
        no_empty_group(b),
        tidy(x),
    ensures
        no_empty_group(a + x + b),
        (a + x + b).len() > 0,
        (a + x + b)[0] == a[0],
        (a + x + b).last() == b.last(),
{
    lemma_glue(a, x);
    lemma_glue(a + x, b);
}

/// The LaTeX of an expression whose names are tidy is tidy.
pub proof fn lemma_tex_is_tidy(t: Term, top: bool)
    requires
        names_are_tidy(t),
    ensures
        tidy(tex_of(t, top)),
        no_empty_group(tex_of(t, top)),
    decreases t, 1nat,
{
    lemma_body_is_tidy(t);
    if needs_brackets(t) && !top {
        lemma_brace_free(open_bracket());
        lemma_brace_free(close_bracket());
        lemma_wrapped(open_bracket(), tex_body(t), close_bracket());
    }
}

proof fn lemma_body_is_tidy(t: Term)
    requires
        names_are_tidy(t),
    ensures
        tidy(tex_body(t)),
    decreases t, 0nat,
{
    let space = seq![' '];
    lemma_brace_free(space);
    match t {
        Term::Number(b) => {
            lemma_literal_is_tidy(b);
        },
        Term::Identifier(name) => {},
        Term::Constant(_) => {},
        Term::Sqrt(s) => {
            lemma_tex_is_tidy(*s, true);
            lemma_wrapped(
                seq![' ', '\\', 's', 'q', 'r', 't', '{'],
                tex_of(*s, true),
                seq!['}', ' '],
            );
        },
        Term::Add(a, b) => {
            lemma_tex_is_tidy(*a, false);
            lemma_tex_is_tidy(*b, false);
            lemma_binary(tex_of(*a, false), seq!['+'], tex_of(*b, false));
        },
        Term::Sub(a, b) => {
            lemma_tex_is_tidy(*a, false);
            lemma_tex_is_tidy(*b, false);
            lemma_binary(tex_of(*a, false), seq!['-'], tex_of(*b, false));
        },
        Term::Mul(a, b) => {
            lemma_tex_is_tidy(*a, false);
            lemma_tex_is_tidy(*b, false);
            lemma_binary(tex_of(*a, false), dot_sign(), tex_of(*b, false));
        },
        Term::Rem(a, b) => {
            lemma_tex_is_tidy(*a, false);
            lemma_tex_is_tidy(*b, false);
            lemma_binary(tex_of(*a, false), seq!['\\', '%'], tex_of(*b, false));
        },
        Term::Sum(v) => {
            lemma_joined_is_tidy(v, seq!['+'], v.len());
            lemma_tidy_joined(space, tex_joined(v, seq!['+'], v.len()));
            lemma_tidy_joined(space + tex_joined(v, seq!['+'], v.len()), space);
        },
        Term::Prod(v) => {
            lemma_brace_free(dot_sign());
            lemma_joined_is_tidy(v, dot_sign(), v.len());
            lemma_tidy_joined(space, tex_joined(v, dot_sign(), v.len()));
            lemma_tidy_joined(space + tex_joined(v, dot_sign(), v.len()), space);
        },
        Term::UnSub(s) => {
            lemma_tex_is_tidy(*s, false);
            lemma_brace_free(seq!['-']);
            lemma_tidy_joined(seq!['-'], tex_of(*s, false));
        },
        Term::Div(a, b) => {
            lemma_tex_is_tidy(*a, true);
            lemma_tex_is_tidy(*b, true);
            let head = seq![' ', '\\', 'f', 'r', 'a', 'c', '{'];
            let middle = seq!['}', '{'];
            let tail = seq!['}', ' '];
            lemma_wrapped(head, tex_of(*a, true), middle);
            lemma_glue(head + tex_of(*a, true) + middle, tex_of(*b, true));
            lemma_glue(head + tex_of(*a, true) + middle + tex_of(*b, true), tail);
        },
        Term::Cos(s) => {
            lemma_tex_is_tidy(*s, true);
            lemma_function(seq![' ', 'c', 'o', 's'], tex_of(*s, true));
        },
        Term::Sin(s) => {
            lemma_tex_is_tidy(*s, true);
            lemma_function(seq![' ', 's', 'i', 'n'], tex_of(*s, true));
        },
        Term::Nop(s) => {
            lemma_body_is_tidy(*s);
        },
    }
}

proof fn lemma_binary(x: Seq<char>, sign: Seq<char>, y: Seq<char>)
    requires
        tidy(x),
        tidy(y),
        brace_free(sign),
        sign.len() > 0,
    ensures
        tidy(seq![' '] + x + sign + y + seq![' ']),
{
    let space = seq![' '];
    lemma_brace_free(space);
    lemma_brace_free(sign);
    lemma_tidy_joined(space, x);
    lemma_tidy_joined(space + x, sign);
    lemma_tidy_joined(space + x + sign, y);
    lemma_tidy_joined(space + x + sign + y, space);
}

proof fn lemma_function(name: Seq<char>, x: Seq<char>)
    requires
        tidy(x),
        brace_free(name),
        name.len() > 0,
    ensures
        tidy(name + open_bracket() + x + close_bracket() + seq![' ']),
{
    let space = seq![' '];
    lemma_brace_free(space);
    lemma_brace_free(name);
    lemma_brace_free(open_bracket());
    lemma_brace_free(close_bracket());
    lemma_tidy_joined(name, open_bracket());
    lemma_tidy_joined(name + open_bracket(), x);
    lemma_tidy_joined(name + open_bracket() + x, close_bracket());
    lemma_tidy_joined(name + open_bracket() + x + close_bracket(), space);
}

proof fn lemma_joined_is_tidy(v: Seq<Term>, sep: Seq<char>, n: nat)
    requires
        names_are_tidy_upto(v, v.len()),
        brace_free(sep),
        sep.len() > 0,
    ensures
        tidy_or_empty(tex_joined(v, sep, n)),
    decreases v, n,
{
    if n == 0 || n > v.len() {
    } else if n == 1 {
        lemma_names_upto(v, v.len(), 1);
        lemma_tex_is_tidy(v[0], false);
    } else {
        lemma_names_upto(v, v.len(), n);
        lemma_joined_is_tidy(v, sep, (n - 1) as nat);
        lemma_tex_is_tidy(v[n - 1], false);
        lemma_brace_free(sep);
        lemma_tidy_joined(tex_joined(v, sep, (n - 1) as nat), sep);
        lemma_tidy_joined(tex_joined(v, sep, (n - 1) as nat) + sep, tex_of(v[n - 1], false));
    }
}

/// The opening of a labelled equation is tidy.
proof fn lemma_label_opening()
    ensures
        tidy("\\begin{equation}\\label{ "@),
{
    reveal_strlit("\\begin{equation}\\label{ ");
    let s = "\\begin{equation}\\label{ "@;
    assert forall|i: int| 0 <= i && i + 1 < s.len() implies !(#[trigger] s[i] == '{' && s[i + 1]
        == '}') by {
        assert(i == 0 || i == 1 || i == 2 || i == 3 || i == 4 || i == 5 || i == 6 || i == 7 ||
            i == 8 || i == 9 || i == 10 || i == 11 || i == 12 || i == 13 || i == 14 || i ==
            15 || i == 16 || i == 17 || i == 18 || i == 19 || i == 20 || i == 21 || i == 22);
    }
}

/// The closing of a label is tidy.
proof fn lemma_label_closing()
    ensures
        tidy(" }\n\t"@),
{
    reveal_strlit(" }\n\t");
    let s = " }\n\t"@;
    assert forall|i: int| 0 <= i && i + 1 < s.len() implies !(#[trigger] s[i] == '{' && s[i + 1]
        == '}') by {
        assert(i == 0 || i == 1 || i == 2);
    }
}

/// The equals sign is tidy.
proof fn lemma_equals()
    ensures
        tidy(" = "@),
{
    reveal_strlit(" = ");
    let s = " = "@;
    assert forall|i: int| 0 <= i && i + 1 < s.len() implies !(#[trigger] s[i] == '{' && s[i + 1]
        == '}') by {
        assert(i == 0 || i == 1);
    }
}

/// The opening of an equation without a name is tidy: its label holds two spaces.
proof fn lemma_empty_label()
    ensures
        tidy("\\begin{equation}\\label{  }\n\t"@),
{
    reveal_strlit("\\begin{equation}\\label{  }\n\t");
    let s = "\\begin{equation}\\label{  }\n\t"@;
    assert forall|i: int| 0 <= i && i + 1 < s.len() implies !(#[trigger] s[i] == '{' && s[i + 1]
        == '}') by {
        assert(i == 0 || i == 1 || i == 2 || i == 3 || i == 4 || i == 5 || i == 6 || i == 7 ||
            i == 8 || i == 9 || i == 10 || i == 11 || i == 12 || i == 13 || i == 14 || i ==
            15 || i == 16 || i == 17 || i == 18 || i == 19 || i == 20 || i == 21 || i == 22
            || i == 23 || i == 24 || i == 25 || i == 26);
    }
}

/// The closing of the equation is tidy.
proof fn lemma_equation_closing()
    ensures
        tidy("\t\\end{array}\\right]\n\\end{equation}\n"@),
{
    reveal_strlit("\t\\end{array}\\right]\n\\end{equation}\n");
    let s = "\t\\end{array}\\right]\n\\end{equation}\n"@;
    assert forall|i: int| 0 <= i && i + 1 < s.len() implies !(#[trigger] s[i] == '{' && s[i + 1]
        == '}') by {
        assert(i == 0 || i == 1 || i == 2 || i == 3 || i == 4 || i == 5 || i == 6 || i == 7 ||
            i == 8 || i == 9 || i == 10 || i == 11 || i == 12 || i == 13 || i == 14 || i ==
            15 || i == 16 || i == 17 || i == 18 || i == 19 || i == 20 || i == 21 || i == 22
            || i == 23 || i == 24 || i == 25 || i == 26 || i == 27 || i == 28 || i == 29 ||
            i == 30 || i == 31 || i == 32 || i == 33);
    }
}

/// The opening of the array, with one `c` for each of its columns, is tidy
/// as long as there is a column.
proof fn lemma_array_opening(columns: nat)
    requires
        columns > 0,
    ensures
        tidy("\\left[\\begin{array}{"@ + column_marks(columns) + "}\n"@),
{
    reveal_strlit("\\left[\\begin{array}{");
    reveal_strlit("}\n");
    let a = "\\left[\\begin{array}{"@;
    let b = "}\n"@;
    assert forall|i: int| 0 <= i && i + 1 < a.len() implies !(#[trigger] a[i] == '{' && a[i + 1]
        == '}') by {
        assert(i == 0 || i == 1 || i == 2 || i == 3 || i == 4 || i == 5 || i == 6 || i == 7 ||
            i == 8 || i == 9 || i == 10 || i == 11 || i == 12 || i == 13 || i == 14 || i ==
            15 || i == 16 || i == 17 || i == 18);
    }
    assert(no_empty_group(b));
    assert(brace_free(column_marks(columns)));
    lemma_brace_free(column_marks(columns));
    lemma_wrapped(a, column_marks(columns), b);
}

/// Every name in every cell is tidy.
pub open spec fn cells_are_tidy(m: Seq<Seq<Term>>) -> bool {
    forall|i: int, j: int|
        0 <= i < m.len() && 0 <= j < m[i].len() ==> names_are_tidy(#[trigger] m[i][j])
}

proof fn lemma_row_is_tidy(row: Seq<Term>, n: nat)
    requires
        forall|j: int| 0 <= j < row.len() ==> names_are_tidy(#[trigger] row[j]),
    ensures
        tidy_or_empty(row_tex(row, n)),
    decreases n,
{
    if n == 0 || n > row.len() {
    } else if n == 1 {
        lemma_tex_is_tidy(row[0], true);
    } else {
        lemma_row_is_tidy(row, (n - 1) as nat);
        lemma_tex_is_tidy(row[n - 1], true);
        lemma_brace_free(cell_gap());
        lemma_tidy_joined(row_tex(row, (n - 1) as nat), cell_gap());
        lemma_tidy_joined(row_tex(row, (n - 1) as nat) + cell_gap(), tex_of(row[n - 1], true));
    }
}

proof fn lemma_rows_are_tidy(m: Seq<Seq<Term>>, n: nat)
    requires
        cells_are_tidy(m),
    ensures
        tidy_or_empty(rows_tex(m, n)),
    decreases n,
{
    if n == 0 || n > m.len() {
    } else {
        lemma_rows_are_tidy(m, (n - 1) as nat);
        let row = m[n - 1];
        assert forall|j: int| 0 <= j < row.len() implies names_are_tidy(#[trigger] row[j]) by {
            assert(names_are_tidy(m[n - 1][j]));
        }
        lemma_row_is_tidy(row, row.len());
        let tabs = seq!['\t', '\t'];
        let end = seq!['\\', '\\', '\n'];
        lemma_brace_free(tabs);
        lemma_brace_free(end);
        lemma_tidy_joined(rows_tex(m, (n - 1) as nat), tabs);
        lemma_tidy_joined(rows_tex(m, (n - 1) as nat) + tabs, row_tex(row, row.len()));
        lemma_tidy_joined(rows_tex(m, (n - 1) as nat) + tabs + row_tex(row, row.len()), end);
    }
}

/// The LaTeX equation of a matrix holds no empty group, as long as the
/// matrix has a column and the names in its cells, and its own, are tidy.
pub proof fn lemma_matrix_has_no_empty_group(
    m: Seq<Seq<Term>>,
    columns: nat,
    identifier: Option<&'static str>,
)
    requires
        columns > 0,
        cells_are_tidy(m),
        identifier matches Some(name) ==> tidy(name@),
    ensures
        tidy(matrix_tex(m, columns, identifier)),
        no_empty_group(matrix_tex(m, columns, identifier)),
{
    lemma_array_opening(columns);
    lemma_equation_closing();
    lemma_rows_are_tidy(m, m.len());
    let array = "\\left[\\begin{array}{"@ + column_marks(columns) + "}\n"@;
    let rows = rows_tex(m, m.len());
    match identifier {
        Some(name) => {
            lemma_label_opening();
            lemma_label_closing();
            lemma_equals();
            let a = "\\begin{equation}\\label{ "@;
            let b = " }\n\t"@;
            let c = " = "@;
            lemma_tidy_joined(a, name@);
            lemma_tidy_joined(a + name@, b);
            lemma_tidy_joined(a + name@ + b, name@);
            lemma_tidy_joined(a + name@ + b + name@, c);
            lemma_tidy_joined(a + name@ + b + name@ + c, array);
            assert(matrix_head(identifier, columns) =~= a + name@ + b + name@ + c + array);
        },
        None => {
            lemma_empty_label();
            let a = "\\begin{equation}\\label{  }\n\t"@;
            lemma_tidy_joined(a, array);
            assert(matrix_head(identifier, columns) =~= a + array);
        },
    }
    lemma_tidy_joined(matrix_head(identifier, columns), rows);
    lemma_tidy_joined(matrix_head(identifier, columns) + rows, tex_tail());
}

/// The LaTeX of a simplified expression holds no empty group, as long as
/// the names in the expression that was simplified are tidy.
pub proof fn lemma_simplified_tex_has_no_empty_group(t: Term, top: bool)
    requires
        names_are_tidy(t),
    ensures
        names_are_tidy(simplified(t)),
        no_empty_group(tex_of(simplified(t), top)),
{
    crate::names::lemma_names_simplified(t);
    lemma_tex_is_tidy(simplified(t), top);
}

/// The LaTeX equation of a simplified matrix holds no empty group, as long
/// as the matrix has a column and the names in the cells that were
/// simplified, and its own, are tidy.
pub proof fn lemma_simplified_matrix_has_no_empty_group(
    m: Seq<Seq<Term>>,
    columns: nat,
    identifier: Option<&'static str>,
)
    requires
        columns > 0,
        cells_are_tidy(m),
        identifier matches Some(name) ==> tidy(name@),
    ensures
        cells_are_tidy(simplified_grid(m, m.len())),
        no_empty_group(matrix_tex(simplified_grid(m, m.len()), columns, identifier)),
{
    let r = simplified_grid(m, m.len());
    lemma_simplified_grid(m, m.len());
    assert forall|i: int, j: int| 0 <= i < r.len() && 0 <= j < r[i].len() implies names_are_tidy(
        #[trigger] r[i][j],
    ) by {
        assert(names_are_tidy(m[i][j]));
        crate::names::lemma_names_simplified(m[i][j]);
    }
    lemma_matrix_has_no_empty_group(r, columns, identifier);
}

} // verus!
