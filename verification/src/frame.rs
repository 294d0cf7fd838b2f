//! How the LaTeX equation of a matrix begins and ends.
use crate::pose::{column_marks, matrix_head, matrix_tex, rows_tex, tex_tail};
use crate::syms::Term;
use vstd::prelude::*;

verus! {

/// Whether the text begins with `p`.
pub open spec fn begins_with(s: Seq<char>, p: Seq<char>) -> bool {
    p.len() <= s.len() && s.subrange(0, p.len() as int) == p
}

/// Whether the text ends with `p`.
pub open spec fn ends_with(s: Seq<char>, p: Seq<char>) -> bool {
    p.len() <= s.len() && s.subrange(s.len() - p.len(), s.len() as int) == p
}

/// A text begins as its first part does.
pub proof fn lemma_begins_joined(a: Seq<char>, b: Seq<char>, p: Seq<char>)
    requires
        begins_with(a, p),
    ensures
        begins_with(a + b, p),
{
    assert((a + b).subrange(0, p.len() as int) =~= a.subrange(0, p.len() as int));
}

/// A text ends as its last part does.
pub proof fn lemma_ends_joined(a: Seq<char>, b: Seq<char>, p: Seq<char>)
    requires
        ends_with(b, p),
    ensures
        ends_with(a + b, p),
{
    assert((a + b).subrange((a + b).len() - p.len(), (a + b).len() as int) =~= b.subrange(
        b.len() - p.len(),
        b.len() as int,
    ));
}

proof fn lemma_labelled_opening()
    ensures
        begins_with("\\begin{equation}\\label{ "@, "\\begin{equation}"@),
{
    reveal_strlit("\\begin{equation}\\label{ ");
    reveal_strlit("\\begin{equation}");
    let s = "\\begin{equation}\\label{ "@;
    let p = "\\begin{equation}"@;
    assert(s.subrange(0, p.len() as int) =~= p);
}

proof fn lemma_unlabelled_opening()
    ensures
        begins_with("\\begin{equation}\\label{  }\n\t"@, "\\begin{equation}"@),
{
    reveal_strlit("\\begin{equation}\\label{  }\n\t");
    reveal_strlit("\\begin{equation}");
    let s = "\\begin{equation}\\label{  }\n\t"@;
    let p = "\\begin{equation}"@;
    assert(s.subrange(0, p.len() as int) =~= p);
}

proof fn lemma_closing()
    ensures
        ends_with(tex_tail(), "\\end{equation}\n"@),
{
    reveal_strlit("\t\\end{array}\\right]\n\\end{equation}\n");
    reveal_strlit("\\end{equation}\n");
    let s = "\t\\end{array}\\right]\n\\end{equation}\n"@;
    let p = "\\end{equation}\n"@;
    assert(s.subrange(s.len() - p.len(), s.len() as int) =~= p);
}

/// The LaTeX equation of every matrix begins with `\begin{equation}` and
/// ends with `\end{equation}` and a line break.
pub proof fn lemma_matrix_is_an_equation(
    m: Seq<Seq<Term>>,
    columns: nat,
    identifier: Option<&'static str>,
)
    ensures
        begins_with(matrix_tex(m, columns, identifier), "\\begin{equation}"@),
        ends_with(matrix_tex(m, columns, identifier), "\\end{equation}\n"@),
{
    let p = "\\begin{equation}"@;
    let array = "\\left[\\begin{array}{"@ + column_marks(columns) + "}\n"@;
    let head = matrix_head(identifier, columns);
    match identifier {
        Some(name) => {
            lemma_labelled_opening();
            let a = "\\begin{equation}\\label{ "@;
            let rest = name@ + " }\n\t"@ + name@ + " = "@ + array;
            lemma_begins_joined(a, rest, p);
            assert(head =~= a + rest);
        },
        None => {
            lemma_unlabelled_opening();
            let a = "\\begin{equation}\\label{  }\n\t"@;
            lemma_begins_joined(a, array, p);
            assert(head =~= a + array);
        },
    }
    let rows = rows_tex(m, m.len());
    lemma_begins_joined(head, rows + tex_tail(), p);
    assert(matrix_tex(m, columns, identifier) =~= head + (rows + tex_tail()));
    lemma_closing();
    lemma_ends_joined(head + rows, tex_tail(), "\\end{equation}\n"@);
}

} // verus!
