//! Symbolic expressions for robot kinematics, and their simplification.
//!
//! An expression is a tree of literals, symbols, constants and operators
//! ([`syms`]). The operators fold what they can while an expression is built
//! ([`arith`]). Sums and products have one canonical arrangement ([`order`],
//! [`canon`]). The simplifier ([`opt`]) rewrites an expression from the
//! leaves up, by the addition theorems of sine and cosine, by what is zero
//! or one, and by taking shared factors ([`terms`]) out of sums, until
//! nothing changes any more. Expressions are written out as text
//! ([`display`]), LaTeX and Matlab source ([`decore`]), alone or as the cells
//! of a pose ([`pose`]); the joints of a chain are listed in a table
//! ([`link`]). A literal is written as the shortest decimal that reads as
//! it ([`literal`], [`shortest`]).
//!
//! What is proved of all expressions: simplifying twice gives what
//! simplifying once gives ([`opt::lemma_simplified_idempotent`]); so does
//! the canonical form ([`canon::lemma_canonical_idempotent`]), which does not
//! depend on the order in which a sum was built
//! ([`canon::lemma_canonical_sum_commutes`]); a simplified expression has no
//! operand that is a literal zero and no stray signs ([`folded`]), and so no
//! addition of two zeros anywhere; it holds no remainder ([`clean`]), no
//! mark ([`marks`]) and no name ([`names`]) unless it was given one
//! ([`kept`]); and its LaTeX holds no empty group ([`groups`]) and no empty
//! bracket ([`brackets`]), and that of a matrix is one equation ([`frame`]).
pub mod arith;
pub mod brackets;
pub mod canon;
pub mod clean;
pub mod decore;
pub mod display;
pub mod folded;
pub mod frame;
pub mod groups;
pub mod kept;
pub mod link;
pub mod literal;
pub mod marks;
pub mod names;
pub mod opt;
pub mod order;
pub mod pose;
pub mod shortest;
pub mod syms;
pub mod terms;
