//! LaTeX without empty brackets.
//!
//! The LaTeX of an expression never opens a round bracket and closes it at
//! once: it holds no `\left(\right)`, as long as no name in the expression
//! brings one. A name must not be empty, hold `\left(\right)`, begin with
//! `\right)` or end with `\left(`.
use crate::decore::{
    close_bracket, dot_sign, needs_brackets, open_bracket, tex_body, tex_joined, tex_of,
};
use crate::frame::{begins_with, ends_with};
use crate::kept::{holds, lemma_kept_collection, lemma_kept_settled, never_built, none_holds};
use crate::literal::{
    lit_is_nan, lit_magnitude, lit_scale, lit_sign, lit_significand, lit_text, magnitude_text,
    INFINITY,
};
use crate::opt::{simplified, PASS_LIMIT};
use crate::pose::{
    cell_gap, column_marks, lemma_simplified_grid, matrix_head, matrix_tex, row_tex, rows_tex,
    simplified_grid, tex_tail,
};
use crate::shortest::{best_count, best_scale, is_decimal_char, lemma_decimal_text};
use crate::syms::Term;
use vstd::prelude::*;

verus! {

/// `\left(\right)`
pub open spec fn empty_bracket() -> Seq<char> {
    open_bracket() + close_bracket()
}

/// Whether the text `p` stands in `s` at position `i`.
pub open spec fn stands_at(s: Seq<char>, p: Seq<char>, i: int) -> bool {
    0 <= i && i + p.len() <= s.len() && s.subrange(i, i + p.len()) == p
}

/// The text holds no `\left(` with `\right)` right after it.
pub open spec fn no_empty_bracket(s: Seq<char>) -> bool {
    forall|i: int| !stands_at(s, empty_bracket(), i)
}

/// The text is not empty, holds no empty bracket, and makes none with what
/// stands before or after it: it does not begin with `\right)` or end with
/// `\left(`.
pub open spec fn clear(s: Seq<char>) -> bool {
    &&& s.len() > 0
    &&& no_empty_bracket(s)
    &&& !begins_with(s, close_bracket())
    &&& !ends_with(s, open_bracket())
}

/// The text holds no round bracket at all.
pub open spec fn round_free(s: Seq<char>) -> bool {
    forall|i: int| 0 <= i < s.len() ==> #[trigger] s[i] != '(' && s[i] != ')'
}

/// The text holds no backslash.
pub open spec fn backslash_free(s: Seq<char>) -> bool {
    forall|i: int| 0 <= i < s.len() ==> #[trigger] s[i] != '\\'
}

/// A character of `\left(\right)`.
pub open spec fn in_pattern(c: char) -> bool {
    c == '\\' || c == 'l' || c == 'e' || c == 'f' || c == 't' || c == '(' || c == 'r' || c == 'i'
        || c == 'g' || c == 'h' || c == ')'
}

/// The text ends with a character that `\left(\right)` does not hold.
pub open spec fn plain_end(s: Seq<char>) -> bool {
    s.len() > 0 && !in_pattern(s.last())
}

/// The text begins with a character that `\left(\right)` does not hold,
/// or with a backslash that no `r` follows.
pub open spec fn plain_start(s: Seq<char>) -> bool {
    s.len() > 0 && (!in_pattern(s[0]) || (s[0] == '\\' && s.len() >= 2 && s[1] != 'r'))
}

/// The thirteen characters of `\left(\right)`.
proof fn lemma_pattern()
    ensures
        empty_bracket() == seq![
            '\\',
            'l',
            'e',
            'f',
            't',
            '(',
            '\\',
            'r',
            'i',
            'g',
            'h',
            't',
            ')',
        ],
        empty_bracket().len() == 13,
        forall|j: int| 0 <= j < 13 ==> in_pattern(#[trigger] empty_bracket()[j]),
        forall|j: int| 1 <= j < 13 && j != 6 ==> #[trigger] empty_bracket()[j] != '\\',
        forall|j: int| 0 <= j < 13 && j != 5 ==> #[trigger] empty_bracket()[j] != '(',
        empty_bracket()[7] == 'r',
{
    let p = empty_bracket();
    let q = seq!['\\', 'l', 'e', 'f', 't', '(', '\\', 'r', 'i', 'g', 'h', 't', ')'];
    assert(p =~= q);
    assert forall|j: int| 0 <= j < 13 implies in_pattern(#[trigger] p[j]) by {
        assert(j == 0 || j == 1 || j == 2 || j == 3 || j == 4 || j == 5 || j == 6 || j == 7 || j
            == 8 || j == 9 || j == 10 || j == 11 || j == 12);
    }
    assert forall|j: int| 1 <= j < 13 && j != 6 implies #[trigger] p[j] != '\\' by {
        assert(j == 1 || j == 2 || j == 3 || j == 4 || j == 5 || j == 7 || j == 8 || j == 9 || j
            == 10 || j == 11 || j == 12);
    }
    assert forall|j: int| 0 <= j < 13 && j != 5 implies #[trigger] p[j] != '(' by {
        assert(j == 0 || j == 1 || j == 2 || j == 3 || j == 4 || j == 6 || j == 7 || j == 8 || j
            == 9 || j == 10 || j == 11 || j == 12);
    }
}

/// Whether `\left(\right)` would stand across the place where `a` ends and
/// `b` begins, with `k` of its characters in `a`.
pub open spec fn straddles(a: Seq<char>, b: Seq<char>, k: int) -> bool {
    ends_with(a, empty_bracket().subrange(0, k)) && begins_with(
        b,
        empty_bracket().subrange(k, 13),
    )
}

/// Two texts without empty brackets, one after the other, hold none,
/// unless one stands across the place where they meet.
pub proof fn lemma_glue(a: Seq<char>, b: Seq<char>)
    requires
        no_empty_bracket(a),
        no_empty_bracket(b),
        forall|k: int| 1 <= k <= 12 ==> !#[trigger] straddles(a, b, k),
    ensures
        no_empty_bracket(a + b),
{
    lemma_pattern();
    let p = empty_bracket();
    let s = a + b;
    assert forall|i: int| !stands_at(s, p, i) by {
        if stands_at(s, p, i) {
            if i + 13 <= a.len() {
                assert(a.subrange(i, i + 13) =~= s.subrange(i, i + 13));
                assert(stands_at(a, p, i));
            } else if i >= a.len() {
                assert(b.subrange(i - a.len(), i - a.len() + 13) =~= s.subrange(i, i + 13));
                assert(stands_at(b, p, i - a.len()));
            } else {
                let k = a.len() - i;
                let front = p.subrange(0, k);
                let back = p.subrange(k, 13);
                assert forall|t: int| 0 <= t < k implies a.subrange(a.len() - k, a.len() as int)[t]
                    == front[t] by {
                    assert(s.subrange(i, i + 13)[t] == p[t]);
                    assert(s[i + t] == a[i + t]);
                }
                assert(a.subrange(a.len() - k, a.len() as int) =~= front);
                assert forall|t: int| 0 <= t < 13 - k implies b.subrange(0, 13 - k)[t]
                    == back[t] by {
                    assert(s.subrange(i, i + 13)[k + t] == p[k + t]);
                    assert(s[i + k + t] == b[t]);
                }
                assert(b.subrange(0, 13 - k) =~= back);
                assert(straddles(a, b, k));
            }
        }
    }
}

/// After a text that ends with a plain character no empty bracket stands
/// across.
pub proof fn lemma_after_plain(a: Seq<char>, b: Seq<char>)
    requires
        no_empty_bracket(a),
        no_empty_bracket(b),
        plain_end(a) || a.len() == 0,
    ensures
        no_empty_bracket(a + b),
{
    lemma_pattern();
    let p = empty_bracket();
    assert forall|k: int| 1 <= k <= 12 implies !#[trigger] straddles(a, b, k) by {
        if straddles(a, b, k) {
            let front = p.subrange(0, k);
            assert(a.subrange(a.len() - k, a.len() as int)[k - 1] == front[k - 1]);
            assert(a.last() == p[k - 1]);
        }
    }
    lemma_glue(a, b);
}

/// Before a text that begins with a plain character no empty bracket
/// stands across.
pub proof fn lemma_before_plain(a: Seq<char>, b: Seq<char>)
    requires
        no_empty_bracket(a),
        no_empty_bracket(b),
        plain_start(b) || b.len() == 0,
    ensures
        no_empty_bracket(a + b),
{
    lemma_pattern();
    let p = empty_bracket();
    assert forall|k: int| 1 <= k <= 12 implies !#[trigger] straddles(a, b, k) by {
        if straddles(a, b, k) {
            let back = p.subrange(k, 13);
            assert(b.subrange(0, 13 - k)[0] == back[0]);
            assert(b[0] == p[k]);
            if b[0] == '\\' {
                assert(k == 6);
                assert(b.subrange(0, 13 - k)[1] == back[1]);
                assert(b[1] == p[7]);
            }
        }
    }
    lemma_glue(a, b);
}

/// A text without round brackets holds no empty bracket.
pub proof fn lemma_round_free(s: Seq<char>)
    requires
        round_free(s),
    ensures
        no_empty_bracket(s),
        !ends_with(s, open_bracket()),
{
    lemma_pattern();
    let p = empty_bracket();
    assert forall|i: int| !stands_at(s, p, i) by {
        if stands_at(s, p, i) {
            assert(s.subrange(i, i + 13)[5] == p[5]);
            assert(s[i + 5] == '(');
        }
    }
    if ends_with(s, open_bracket()) {
        assert(s.subrange(s.len() - 6, s.len() as int)[5] == open_bracket()[5]);
        assert(s[s.len() - 1] == '(');
    }
}

/// A text without a backslash that is not empty is clear.
pub proof fn lemma_backslash_free(s: Seq<char>)
    requires
        backslash_free(s),
        s.len() > 0,
    ensures
        clear(s),
{
    lemma_pattern();
    let p = empty_bracket();
    assert forall|i: int| !stands_at(s, p, i) by {
        if stands_at(s, p, i) {
            assert(s.subrange(i, i + 13)[0] == p[0]);
            assert(s[i] == '\\');
        }
    }
    if begins_with(s, close_bracket()) {
        assert(s.subrange(0, 7)[0] == close_bracket()[0]);
        assert(s[0] == '\\');
    }
    if ends_with(s, open_bracket()) {
        assert(s.subrange(s.len() - 6, s.len() as int)[0] == open_bracket()[0]);
        assert(s[s.len() - 6] == '\\');
    }
}

/// A text that begins and ends with a space and holds no empty bracket is
/// clear.
proof fn lemma_in_spaces(s: Seq<char>)
    requires
        s.len() > 0,
        s[0] == ' ',
        s.last() == ' ',
        no_empty_bracket(s),
    ensures
        clear(s),
{
    if begins_with(s, close_bracket()) {
        assert(s.subrange(0, 7)[0] == close_bracket()[0]);
    }
    if ends_with(s, open_bracket()) {
        assert(s.subrange(s.len() - 6, s.len() as int)[5] == open_bracket()[5]);
    }
}

/// A clear text in round brackets is clear.
pub proof fn lemma_bracketed(x: Seq<char>)
    requires
        clear(x),
    ensures
        clear(open_bracket() + x + close_bracket()),
        no_empty_bracket(open_bracket() + x + close_bracket()),
{
    lemma_pattern();
    let p = empty_bracket();
    let o = open_bracket();
    let c = close_bracket();
    assert(o.len() == 6 && c.len() == 7);
    assert(no_empty_bracket(o)) by {
        assert forall|i: int| !stands_at(o, p, i) by {}
    }
    assert(no_empty_bracket(c)) by {
        assert forall|i: int| !stands_at(c, p, i) by {}
    }
    assert forall|k: int| 1 <= k <= 12 implies !#[trigger] straddles(o, x, k) by {
        if straddles(o, x, k) {
            let front = p.subrange(0, k);
            assert(k <= 6);
            assert(o.subrange(6 - k, 6)[k - 1] == front[k - 1]);
            assert(o[5] == p[k - 1]);
            assert(k == 6);
            assert(p.subrange(6, 13) =~= c);
        }
    }
    lemma_glue(o, x);
    let ox = o + x;
    assert forall|k: int| 1 <= k <= 12 implies !#[trigger] straddles(ox, c, k) by {
        if straddles(ox, c, k) {
            let back = p.subrange(k, 13);
            assert(c.subrange(0, 13 - k)[0] == back[0]);
            assert(c[0] == p[k]);
            assert(k == 6);
            assert(p.subrange(0, 6) =~= o);
            assert(ends_with(ox, o));
            if x.len() >= 6 {
                assert(ox.subrange(ox.len() - 6, ox.len() as int) =~= x.subrange(
                    x.len() - 6,
                    x.len() as int,
                ));
                assert(ends_with(x, o));
            } else {
                lemma_short_tail(x);
            }
        }
    }
    lemma_glue(ox, c);
    let s = ox + c;
    assert(s[0] == o[0]);
    assert(s[1] == o[1]);
    if begins_with(s, c) {
        assert(s.subrange(0, 7)[1] == c[1]);
    }
    if ends_with(s, o) {
        assert(s.subrange(s.len() - 6, s.len() as int)[5] == o[5]);
        assert(s.last() == c[6]);
    }
}

/// `\left(` with a text of fewer than six characters after it does not end
/// with `\left(`, unless the text is empty.
proof fn lemma_short_tail(x: Seq<char>)
    requires
        0 < x.len() < 6,
    ensures
        !ends_with(open_bracket() + x, open_bracket()),
{
    let o = open_bracket();
    let s = o + x;
    let n = x.len() as int;
    if ends_with(s, o) {
        let tail = s.subrange(s.len() - 6, s.len() as int);
        assert(tail[0] == o[0]);
        assert(s[n] == '\\');
        assert(s[n] == o[n]);
        assert(n == 1 || n == 2 || n == 3 || n == 4 || n == 5);
    }
}

/// The digits of a literal are clear.
proof fn lemma_magnitude_clear(m: nat, e: int)
    ensures
        backslash_free(magnitude_text(m, e)),
        magnitude_text(m, e).len() > 0,
{
    if m > 0 {
        lemma_decimal_text(best_count(m, e), best_scale(m, e));
        let s = magnitude_text(m, e);
        assert forall|i: int| 0 <= i < s.len() implies #[trigger] s[i] != '\\' by {
            assert(is_decimal_char(s[i]));
        }
    }
}

/// The text of a literal is clear: it holds no backslash.
pub proof fn lemma_literal_is_clear(b: u32)
    ensures
        clear(lit_text(b)),
{
    let s = lit_text(b);
    if lit_is_nan(b) {
        assert(backslash_free(s));
    } else if lit_magnitude(b) == INFINITY {
        assert(backslash_free(s));
    } else {
        let digits = magnitude_text(lit_significand(b), lit_scale(b));
        lemma_magnitude_clear(lit_significand(b), lit_scale(b));
        if lit_sign(b) {
            assert forall|i: int| 0 <= i < s.len() implies #[trigger] s[i] != '\\' by {
                if i > 0 {
                    assert(s[i] == digits[i - 1]);
                }
            }
        }
    }
    lemma_backslash_free(s);
}

/// The kind of node that is a symbol with a name that is not clear.
pub open spec fn unclear_name() -> spec_fn(Term) -> bool {
    |t: Term| t matches Term::Identifier(name) && !clear(name)
}

/// Every name in the expression is clear.
pub open spec fn names_are_clear(t: Term) -> bool {
    !holds(t, unclear_name())
}

/// A name without a backslash that is not empty is clear.
pub proof fn lemma_plain_name_is_clear(name: Seq<char>)
    requires
        name.len() > 0,
        backslash_free(name),
    ensures
        clear(name),
{
    lemma_backslash_free(name);
}

/// The names of an expression are clear exactly if its own name is, where
/// it is a symbol, and those of its operands are.
pub proof fn lemma_names_in_parts(t: Term)
    ensures
        names_are_clear(t) == match t {
            Term::Identifier(name) => clear(name),
            Term::Sqrt(s) => names_are_clear(*s),
            Term::Sin(s) => names_are_clear(*s),
            Term::Cos(s) => names_are_clear(*s),
            Term::UnSub(s) => names_are_clear(*s),
            Term::Nop(s) => names_are_clear(*s),
            Term::Add(a, b) => names_are_clear(*a) && names_are_clear(*b),
            Term::Sub(a, b) => names_are_clear(*a) && names_are_clear(*b),
            Term::Mul(a, b) => names_are_clear(*a) && names_are_clear(*b),
            Term::Div(a, b) => names_are_clear(*a) && names_are_clear(*b),
            Term::Rem(a, b) => names_are_clear(*a) && names_are_clear(*b),
            Term::Sum(v) => forall|i: int| 0 <= i < v.len() ==> names_are_clear(#[trigger] v[i]),
            Term::Prod(v) => forall|i: int| 0 <= i < v.len() ==> names_are_clear(#[trigger] v[i]),
            _ => true,
        },
{
    lemma_names_are_kept();
    assert(unclear_name()(t) == (t matches Term::Identifier(name) && !clear(name)));
    match t {
        Term::Sum(v) => {
            lemma_kept_collection(v, unclear_name());
        },
        Term::Prod(v) => {
            lemma_kept_collection(v, unclear_name());
        },
        _ => {},
    }
}

/// A name is no node that the simplifier builds, and no mark.
pub proof fn lemma_names_are_kept()
    ensures
        never_built(unclear_name()),
        forall|x: Term| #[trigger] unclear_name()(x) ==> !(x is Nop),
{
    assert forall|x: Term| #[trigger] unclear_name()(x) implies x is Identifier || x is Rem
        || x is Nop by {}
    assert forall|x: Term| #[trigger] unclear_name()(x) implies !(x is Nop) by {}
}

/// The names of a simplified expression are clear where those of the
/// expression were.
pub proof fn lemma_names_stay_clear(t: Term)
    requires
        names_are_clear(t),
    ensures
        names_are_clear(simplified(t)),
{
    lemma_names_are_kept();
    lemma_kept_settled(t, PASS_LIMIT as nat, unclear_name());
}

/// The LaTeX of an expression whose names are clear is clear.
pub proof fn lemma_tex_is_clear(t: Term, top: bool)
    requires
        names_are_clear(t),
    ensures
        clear(tex_of(t, top)),
        no_empty_bracket(tex_of(t, top)),
    decreases t, 1nat,
{
    lemma_body_is_clear(t);
    if needs_brackets(t) && !top {
        lemma_bracketed(tex_body(t));
    }
}

/// A text shorter than `\left(` that is not empty is clear.
proof fn lemma_short(s: Seq<char>)
    requires
        0 < s.len() < 6,
    ensures
        clear(s),
{
    lemma_pattern();
    assert forall|i: int| !stands_at(s, empty_bracket(), i) by {}
}

/// A text shorter than `\left(\right)` holds no empty bracket.
proof fn lemma_no_room(s: Seq<char>)
    requires
        s.len() < 13,
    ensures
        no_empty_bracket(s),
{
    lemma_pattern();
    assert forall|i: int| !stands_at(s, empty_bracket(), i) by {}
}

/// A text between a text that ends with a plain character and one that
/// begins with one.
proof fn lemma_between(a: Seq<char>, x: Seq<char>, b: Seq<char>)
    requires
        no_empty_bracket(a),
        no_empty_bracket(b),
        no_empty_bracket(x),
        plain_end(a),
        plain_start(b),
    ensures
        no_empty_bracket(a + x + b),
        (a + x + b).len() == a.len() + x.len() + b.len(),
        (a + x + b)[0] == a[0],
        (a + x + b).last() == b.last(),
{
    lemma_after_plain(a, x);
    lemma_before_plain(a + x, b);
}

proof fn lemma_two_operands(x: Seq<char>, sign: Seq<char>, y: Seq<char>)
    requires
        no_empty_bracket(x),
        no_empty_bracket(y),
        sign.len() < 13,
        plain_start(sign),
        plain_end(sign),
    ensures
        clear(seq![' '] + x + sign + y + seq![' ']),
{
    let space = seq![' '];
    lemma_no_room(space);
    lemma_no_room(sign);
    lemma_after_plain(space, x);
    lemma_before_plain(space + x, sign);
    assert((space + x + sign).last() == sign.last());
    lemma_after_plain(space + x + sign, y);
    lemma_before_plain(space + x + sign + y, space);
    let s = space + x + sign + y + space;
    assert(s[0] == ' ');
    assert(s.last() == ' ');
    lemma_in_spaces(s);
}

proof fn lemma_argument(name: Seq<char>, x: Seq<char>)
    requires
        clear(x),
        name.len() == 4,
        name[0] == ' ',
        !in_pattern(name[3]),
    ensures
        clear(name + open_bracket() + x + close_bracket() + seq![' ']),
{
    let space = seq![' '];
    lemma_no_room(space);
    lemma_no_room(name);
    lemma_bracketed(x);
    let inner = open_bracket() + x + close_bracket();
    lemma_after_plain(name, inner);
    lemma_before_plain(name + inner, space);
    let s = name + open_bracket() + x + close_bracket() + space;
    assert(s =~= name + inner + space);
    assert(s[0] == ' ');
    assert(s.last() == ' ');
    lemma_in_spaces(s);
}

proof fn lemma_negated(x: Seq<char>)
    requires
        clear(x),
    ensures
        clear(seq!['-'] + x),
{
    let minus = seq!['-'];
    let s = minus + x;
    let o = open_bracket();
    lemma_no_room(minus);
    lemma_after_plain(minus, x);
    assert(s[0] == '-');
    if begins_with(s, close_bracket()) {
        assert(s.subrange(0, 7)[0] == close_bracket()[0]);
    }
    if ends_with(s, o) {
        if x.len() >= 6 {
            assert(s.subrange(s.len() - 6, s.len() as int) =~= x.subrange(
                x.len() - 6,
                x.len() as int,
            ));
        } else {
            assert(x.len() == 5);
            assert(s.subrange(s.len() - 6, s.len() as int)[0] == o[0]);
        }
    }
}

proof fn lemma_body_is_clear(t: Term)
    requires
        names_are_clear(t),
    ensures
        clear(tex_body(t)),
    decreases t, 0nat,
{
    lemma_names_are_kept();
    let space = seq![' '];
    match t {
        Term::Number(b) => {
            lemma_literal_is_clear(b);
        },
        Term::Identifier(name) => {
            assert(!unclear_name()(t));
        },
        Term::Constant(_) => {
            lemma_short(tex_body(t));
        },
        Term::Sqrt(s) => {
            lemma_tex_is_clear(*s, true);
            let a = seq![' ', '\\', 's', 'q', 'r', 't', '{'];
            let b = seq!['}', ' '];
            lemma_no_room(a);
            lemma_no_room(b);
            lemma_between(a, tex_of(*s, true), b);
            lemma_in_spaces(a + tex_of(*s, true) + b);
        },
        Term::Add(a, b) => {
            lemma_tex_is_clear(*a, false);
            lemma_tex_is_clear(*b, false);
            lemma_two_operands(tex_of(*a, false), seq!['+'], tex_of(*b, false));
        },
        Term::Sub(a, b) => {
            lemma_tex_is_clear(*a, false);
            lemma_tex_is_clear(*b, false);
            lemma_two_operands(tex_of(*a, false), seq!['-'], tex_of(*b, false));
        },
        Term::Mul(a, b) => {
            lemma_tex_is_clear(*a, false);
            lemma_tex_is_clear(*b, false);
            lemma_two_operands(tex_of(*a, false), dot_sign(), tex_of(*b, false));
        },
        Term::Rem(a, b) => {
            lemma_tex_is_clear(*a, false);
            lemma_tex_is_clear(*b, false);
            lemma_two_operands(tex_of(*a, false), seq!['\\', '%'], tex_of(*b, false));
        },
        Term::Sum(v) => {
            lemma_kept_collection(v, unclear_name());
            lemma_joined_is_clear(v, seq!['+'], v.len());
            lemma_no_room(space);
            lemma_between(space, tex_joined(v, seq!['+'], v.len()), space);
            lemma_in_spaces(space + tex_joined(v, seq!['+'], v.len()) + space);
        },
        Term::Prod(v) => {
            lemma_kept_collection(v, unclear_name());
            lemma_joined_is_clear(v, dot_sign(), v.len());
            lemma_no_room(space);
            lemma_between(space, tex_joined(v, dot_sign(), v.len()), space);
            lemma_in_spaces(space + tex_joined(v, dot_sign(), v.len()) + space);
        },
        Term::UnSub(s) => {
            lemma_tex_is_clear(*s, false);
            lemma_negated(tex_of(*s, false));
        },
        Term::Div(a, b) => {
            lemma_tex_is_clear(*a, true);
            lemma_tex_is_clear(*b, true);
            let head = seq![' ', '\\', 'f', 'r', 'a', 'c', '{'];
            let middle = seq!['}', '{'];
            let tail = seq!['}', ' '];
            lemma_no_room(head);
            lemma_no_room(middle);
            lemma_no_room(tail);
            lemma_between(head, tex_of(*a, true), middle);
            lemma_after_plain(head + tex_of(*a, true) + middle, tex_of(*b, true));
            lemma_before_plain(head + tex_of(*a, true) + middle + tex_of(*b, true), tail);
            let s = head + tex_of(*a, true) + middle + tex_of(*b, true) + tail;
            assert(s[0] == ' ');
            assert(s.last() == ' ');
            lemma_in_spaces(s);
        },
        Term::Cos(s) => {
            lemma_tex_is_clear(*s, true);
            lemma_argument(seq![' ', 'c', 'o', 's'], tex_of(*s, true));
        },
        Term::Sin(s) => {
            lemma_tex_is_clear(*s, true);
            lemma_argument(seq![' ', 's', 'i', 'n'], tex_of(*s, true));
        },
        Term::Nop(s) => {
            lemma_body_is_clear(*s);
        },
    }
}

proof fn lemma_joined_is_clear(v: Seq<Term>, sep: Seq<char>, n: nat)
    requires
        none_holds(v, unclear_name()),
        sep.len() < 13,
        plain_start(sep),
        plain_end(sep),
    ensures
        no_empty_bracket(tex_joined(v, sep, n)),
    decreases v, n,
{
    if n == 0 || n > v.len() {
        lemma_no_room(tex_joined(v, sep, n));
    } else if n == 1 {
        assert(names_are_clear(v[0]));
        lemma_tex_is_clear(v[0], false);
    } else {
        lemma_joined_is_clear(v, sep, (n - 1) as nat);
        assert(names_are_clear(v[n - 1]));
        lemma_tex_is_clear(v[n - 1], false);
        lemma_no_room(sep);
        let before = tex_joined(v, sep, (n - 1) as nat);
        lemma_before_plain(before, sep);
        assert((before + sep).last() == sep.last());
        lemma_after_plain(before + sep, tex_of(v[n - 1], false));
    }
}

/// The opening of a labelled equation holds no round bracket, and ends with a plain
/// character.
proof fn lemma_label_opening()
    ensures
        round_free("\\begin{equation}\\label{ "@),
        no_empty_bracket("\\begin{equation}\\label{ "@),
        plain_end("\\begin{equation}\\label{ "@),
        "\\begin{equation}\\label{ "@.len() == 24,
        "\\begin{equation}\\label{ "@[0] == '\\',
{
    reveal_strlit("\\begin{equation}\\label{ ");
    let s = "\\begin{equation}\\label{ "@;
    assert forall|i: int| 0 <= i < s.len() implies #[trigger] s[i] != '(' && s[i] != ')' by {
        assert(i == 0 || i == 1 || i == 2 || i == 3 || i == 4 || i == 5 || i == 6 || i == 7 || i == 8 || i == 9 || i == 10 || i == 11 || i == 12 || i == 13 || i == 14 || i == 15 || i == 16 || i == 17 || i == 18 || i == 19 || i == 20 || i == 21 || i == 22 || i == 23);
    }
    lemma_round_free(s);
}

/// The closing of a label holds no round bracket, and ends with a plain
/// character.
proof fn lemma_label_closing()
    ensures
        round_free(" }\n\t"@),
        no_empty_bracket(" }\n\t"@),
        plain_end(" }\n\t"@),
        " }\n\t"@.len() == 4,
        " }\n\t"@[0] == ' ',
{
    reveal_strlit(" }\n\t");
    let s = " }\n\t"@;
    assert forall|i: int| 0 <= i < s.len() implies #[trigger] s[i] != '(' && s[i] != ')' by {
        assert(i == 0 || i == 1 || i == 2 || i == 3);
    }
    lemma_round_free(s);
}

/// The equals sign holds no round bracket, and ends with a plain
/// character.
proof fn lemma_equals()
    ensures
        round_free(" = "@),
        no_empty_bracket(" = "@),
        plain_end(" = "@),
        " = "@.len() == 3,
        " = "@[0] == ' ',
{
    reveal_strlit(" = ");
    let s = " = "@;
    assert forall|i: int| 0 <= i < s.len() implies #[trigger] s[i] != '(' && s[i] != ')' by {
        assert(i == 0 || i == 1 || i == 2);
    }
    lemma_round_free(s);
}

/// The opening of an equation without a name holds no round bracket, and ends with a plain
/// character.
proof fn lemma_empty_label()
    ensures
        round_free("\\begin{equation}\\label{  }\n\t"@),
        no_empty_bracket("\\begin{equation}\\label{  }\n\t"@),
        plain_end("\\begin{equation}\\label{  }\n\t"@),
        "\\begin{equation}\\label{  }\n\t"@.len() == 28,
        "\\begin{equation}\\label{  }\n\t"@[0] == '\\',
{
    reveal_strlit("\\begin{equation}\\label{  }\n\t");
    let s = "\\begin{equation}\\label{  }\n\t"@;
    assert forall|i: int| 0 <= i < s.len() implies #[trigger] s[i] != '(' && s[i] != ')' by {
        assert(i == 0 || i == 1 || i == 2 || i == 3 || i == 4 || i == 5 || i == 6 || i == 7 || i == 8 || i == 9 || i == 10 || i == 11 || i == 12 || i == 13 || i == 14 || i == 15 || i == 16 || i == 17 || i == 18 || i == 19 || i == 20 || i == 21 || i == 22 || i == 23 || i == 24 || i == 25 || i == 26 || i == 27);
    }
    lemma_round_free(s);
}

/// The closing of the equation holds no round bracket, and ends with a plain
/// character.
proof fn lemma_equation_closing()
    ensures
        round_free("\t\\end{array}\\right]\n\\end{equation}\n"@),
        no_empty_bracket("\t\\end{array}\\right]\n\\end{equation}\n"@),
        plain_end("\t\\end{array}\\right]\n\\end{equation}\n"@),
        "\t\\end{array}\\right]\n\\end{equation}\n"@.len() == 35,
        "\t\\end{array}\\right]\n\\end{equation}\n"@[0] == '\t',
{
    reveal_strlit("\t\\end{array}\\right]\n\\end{equation}\n");
    let s = "\t\\end{array}\\right]\n\\end{equation}\n"@;
    assert forall|i: int| 0 <= i < s.len() implies #[trigger] s[i] != '(' && s[i] != ')' by {
        assert(i == 0 || i == 1 || i == 2 || i == 3 || i == 4 || i == 5 || i == 6 || i == 7 || i == 8 || i == 9 || i == 10 || i == 11 || i == 12 || i == 13 || i == 14 || i == 15 || i == 16 || i == 17 || i == 18 || i == 19 || i == 20 || i == 21 || i == 22 || i == 23 || i == 24 || i == 25 || i == 26 || i == 27 || i == 28 || i == 29 || i == 30 || i == 31 || i == 32 || i == 33 || i == 34);
    }
    lemma_round_free(s);
}

/// The opening of the array holds no round bracket, and ends with a plain
/// character.
proof fn lemma_array_opening()
    ensures
        round_free("\\left[\\begin{array}{"@),
        no_empty_bracket("\\left[\\begin{array}{"@),
        plain_end("\\left[\\begin{array}{"@),
        "\\left[\\begin{array}{"@.len() == 20,
        "\\left[\\begin{array}{"@[0] == '\\',
{
    reveal_strlit("\\left[\\begin{array}{");
    let s = "\\left[\\begin{array}{"@;
    assert forall|i: int| 0 <= i < s.len() implies #[trigger] s[i] != '(' && s[i] != ')' by {
        assert(i == 0 || i == 1 || i == 2 || i == 3 || i == 4 || i == 5 || i == 6 || i == 7 || i == 8 || i == 9 || i == 10 || i == 11 || i == 12 || i == 13 || i == 14 || i == 15 || i == 16 || i == 17 || i == 18 || i == 19);
    }
    lemma_round_free(s);
}

/// The end of the column marks holds no round bracket, and ends with a plain
/// character.
proof fn lemma_array_columns_end()
    ensures
        round_free("}\n"@),
        no_empty_bracket("}\n"@),
        plain_end("}\n"@),
        "}\n"@.len() == 2,
        "}\n"@[0] == '}',
{
    reveal_strlit("}\n");
    let s = "}\n"@;
    assert forall|i: int| 0 <= i < s.len() implies #[trigger] s[i] != '(' && s[i] != ')' by {
        assert(i == 0 || i == 1);
    }
    lemma_round_free(s);
}

/// Every name in every cell is clear.
pub open spec fn cells_are_clear(m: Seq<Seq<Term>>) -> bool {
    forall|i: int, j: int|
        0 <= i < m.len() && 0 <= j < m[i].len() ==> names_are_clear(#[trigger] m[i][j])
}

proof fn lemma_row_is_clear(row: Seq<Term>, n: nat)
    requires
        forall|j: int| 0 <= j < row.len() ==> names_are_clear(#[trigger] row[j]),
    ensures
        no_empty_bracket(row_tex(row, n)),
    decreases n,
{
    if n == 0 || n > row.len() {
        lemma_no_room(row_tex(row, n));
    } else if n == 1 {
        lemma_tex_is_clear(row[0], true);
    } else {
        lemma_row_is_clear(row, (n - 1) as nat);
        lemma_tex_is_clear(row[n - 1], true);
        lemma_no_room(cell_gap());
        let before = row_tex(row, (n - 1) as nat);
        lemma_before_plain(before, cell_gap());
        assert((before + cell_gap()).last() == cell_gap().last());
        lemma_after_plain(before + cell_gap(), tex_of(row[n - 1], true));
    }
}

proof fn lemma_rows_are_clear(m: Seq<Seq<Term>>, n: nat)
    requires
        cells_are_clear(m),
    ensures
        no_empty_bracket(rows_tex(m, n)),
        rows_tex(m, n).len() == 0 || plain_end(rows_tex(m, n)),
    decreases n,
{
    if n == 0 || n > m.len() {
        lemma_no_room(rows_tex(m, n));
    } else {
        lemma_rows_are_clear(m, (n - 1) as nat);
        let row = m[n - 1];
        assert forall|j: int| 0 <= j < row.len() implies names_are_clear(#[trigger] row[j]) by {
            assert(names_are_clear(m[n - 1][j]));
        }
        lemma_row_is_clear(row, row.len());
        let tabs = seq!['\t', '\t'];
        let end = seq!['\\', '\\', '\n'];
        let before = rows_tex(m, (n - 1) as nat);
        lemma_no_room(tabs);
        lemma_no_room(end);
        lemma_before_plain(before, tabs);
        assert((before + tabs).last() == tabs.last());
        lemma_after_plain(before + tabs, row_tex(row, row.len()));
        lemma_before_plain(before + tabs + row_tex(row, row.len()), end);
        assert((before + tabs + row_tex(row, row.len()) + end).last() == end.last());
    }
}

/// The LaTeX equation of a matrix holds no empty bracket, as long as the
/// names in its cells, and its own, are clear.
pub proof fn lemma_matrix_has_no_empty_bracket(
    m: Seq<Seq<Term>>,
    columns: nat,
    identifier: Option<&'static str>,
)
    requires
        cells_are_clear(m),
        identifier matches Some(name) ==> clear(name@),
    ensures
        no_empty_bracket(matrix_tex(m, columns, identifier)),
{
    lemma_array_opening();
    lemma_array_columns_end();
    lemma_equation_closing();
    lemma_rows_are_clear(m, m.len());
    let marks = column_marks(columns);
    assert(round_free(marks));
    lemma_round_free(marks);
    let opening = "\\left[\\begin{array}{"@;
    let ending = "}\n"@;
    lemma_between(opening, marks, ending);
    let array = opening + marks + ending;
    assert(array[0] == '\\' && array[1] == opening[1]) by {
        reveal_strlit("\\left[\\begin{array}{");
    }
    assert(plain_start(array)) by {
        reveal_strlit("\\left[\\begin{array}{");
    }
    assert(plain_end(array)) by {
        reveal_strlit("}\n");
    }
    let rows = rows_tex(m, m.len());
    let head = matrix_head(identifier, columns);
    match identifier {
        Some(name) => {
            lemma_label_opening();
            lemma_label_closing();
            lemma_equals();
            let a = "\\begin{equation}\\label{ "@;
            let b = " }\n\t"@;
            let c = " = "@;
            lemma_after_plain(a, name@);
            lemma_before_plain(a + name@, b);
            assert((a + name@ + b).last() == b.last());
            lemma_after_plain(a + name@ + b, name@);
            lemma_before_plain(a + name@ + b + name@, c);
            lemma_before_plain(a + name@ + b + name@ + c, array);
            assert(head =~= a + name@ + b + name@ + c + array);
        },
        None => {
            lemma_empty_label();
            let a = "\\begin{equation}\\label{  }\n\t"@;
            lemma_after_plain(a, array);
            assert(head =~= a + array);
        },
    }
    assert(head.last() == array.last());
    lemma_after_plain(head, rows);
    let tail = tex_tail();
    assert(plain_start(tail));
    lemma_before_plain(head + rows, tail);
}

/// The LaTeX of a simplified expression holds no empty bracket, as long as
/// the names in the expression that was simplified are clear.
pub proof fn lemma_simplified_tex_has_no_empty_bracket(t: Term, top: bool)
    requires
        names_are_clear(t),
    ensures
        names_are_clear(simplified(t)),
        no_empty_bracket(tex_of(simplified(t), top)),
{
    lemma_names_stay_clear(t);
    lemma_tex_is_clear(simplified(t), top);
}

/// The LaTeX equation of a simplified matrix holds no empty bracket, as
/// long as the names in the cells that were simplified, and its own, are
/// clear.
pub proof fn lemma_simplified_matrix_has_no_empty_bracket(
    m: Seq<Seq<Term>>,
    columns: nat,
    identifier: Option<&'static str>,
)
    requires
        cells_are_clear(m),
        identifier matches Some(name) ==> clear(name@),
    ensures
        cells_are_clear(simplified_grid(m, m.len())),
        no_empty_bracket(matrix_tex(simplified_grid(m, m.len()), columns, identifier)),
{
    let r = simplified_grid(m, m.len());
    lemma_simplified_grid(m, m.len());
    assert forall|i: int, j: int|
        0 <= i < r.len() && 0 <= j < r[i].len() implies names_are_clear(#[trigger] r[i][j]) by {
        assert(names_are_clear(m[i][j]));
        lemma_names_stay_clear(m[i][j]);
    }
    lemma_matrix_has_no_empty_bracket(r, columns, identifier);
}

} // verus!
