//! The TIP grammar: a recursive-descent parser with ordered alternatives and
//! backtracking, verified against a mathematical description of each rule.
//!
//! Every `spec_*` function below is the meaning of one grammar rule: it maps
//! the source text (a sequence of characters) and a start position to the
//! parsed value and the position after it, or to `None` when the rule does not
//! match there. The executable `parse_*` functions return exactly what the
//! corresponding `spec_*` function says, which pins the whole parse down to a
//! function of the input text.
//!
//! A rule that repeats or recurses carries a `decreases` measure of the form
//! `(remaining characters, rule tier)`: a recursive call either consumes input
//! or moves to a tighter-binding rule. Positions returned by sub-rules are
//! re-checked (`if i < j { .. }`) so that the measure is self-evidently
//! well-founded; the fallback arms of those checks are unreachable, which the
//! executable functions demonstrate by never taking them.
use vstd::prelude::*;

use crate::ast::{
    lemma_view_boxes_len, lemma_view_boxes_prepend, lemma_view_fields_prepend,
    lemma_view_stmts_prepend, view_expr, view_expr_boxes, view_fields, view_idents, view_stmt,
    view_stmts, BinOp, ExprView, Expression, Function, FunctionView, Ident, Program, ProgramView,
    Statement, StmtView, UnOp,
};
use crate::tip_parser::{cap_usize, line_col_at, spec_col, spec_line, ParseError};
use vstd::string::StrSliceExecFns;

verus! {

// ---------------------------------------------------------------------------
// Character classes
// ---------------------------------------------------------------------------

pub open spec fn is_ws_char(c: char) -> bool {
    c == ' ' || c == '\n' || c == '\t' || c == '\r'
}

pub open spec fn is_digit_char(c: char) -> bool {
    48 <= c as u32 && c as u32 <= 57
}

pub open spec fn is_alpha_char(c: char) -> bool {
    (65 <= c as u32 && c as u32 <= 90) || (97 <= c as u32 && c as u32 <= 122)
}

pub open spec fn is_ident_char(c: char) -> bool {
    is_alpha_char(c) || is_digit_char(c) || c == '_'
}

// ---------------------------------------------------------------------------
// Character runs: whitespace, comment bodies, identifiers, digits
// ---------------------------------------------------------------------------

/// Number of consecutive whitespace characters at `i`.
pub open spec fn ws_run(s: Seq<char>, i: int) -> nat
    decreases s.len() - i,
{
    if 0 <= i && i < s.len() && is_ws_char(s[i]) {
        1 + ws_run(s, i + 1)
    } else {
        0
    }
}

/// Number of consecutive line-comment body characters (anything but a
/// newline) at `i`.
pub open spec fn line_run(s: Seq<char>, i: int) -> nat
    decreases s.len() - i,
{
    if 0 <= i && i < s.len() && s[i] != '\n' {
        1 + line_run(s, i + 1)
    } else {
        0
    }
}

/// Number of consecutive identifier characters at `i`.
pub open spec fn ident_run(s: Seq<char>, i: int) -> nat
    decreases s.len() - i,
{
    if 0 <= i && i < s.len() && is_ident_char(s[i]) {
        1 + ident_run(s, i + 1)
    } else {
        0
    }
}

/// Number of consecutive digits at `i`.
pub open spec fn digit_run(s: Seq<char>, i: int) -> nat
    decreases s.len() - i,
{
    if 0 <= i && i < s.len() && is_digit_char(s[i]) {
        1 + digit_run(s, i + 1)
    } else {
        0
    }
}

/// `i + n`, unless that would leave the text; the fallback arm never arises
/// for the runs above, but it keeps positions self-evidently in bounds.
pub open spec fn bounded_advance(s: Seq<char>, i: int, n: nat) -> int {
    if i + n <= s.len() {
        i + n
    } else {
        i
    }
}

// ---------------------------------------------------------------------------
// Comments and blank space
// ---------------------------------------------------------------------------

/// Position just after `*/`, scanning from `i` (which is just after `/*`);
/// `None` when the block comment is not terminated.
pub open spec fn block_comment_end(s: Seq<char>, i: int) -> Option<int>
    decreases s.len() - i,
{
    if i + 2 <= s.len() && s[i] == '*' && s[i + 1] == '/' {
        Some(i + 2)
    } else if 0 <= i && i < s.len() {
        block_comment_end(s, i + 1)
    } else {
        None
    }
}

/// One comment, either `// ...` to the end of the line (the newline itself is
/// not part of the comment) or `/* ... */`.
pub open spec fn spec_comment(s: Seq<char>, i: int) -> Option<int> {
    if i + 2 <= s.len() && s[i] == '/' && s[i + 1] == '/' {
        Some(bounded_advance(s, i + 2, line_run(s, i + 2)))
    } else if i + 2 <= s.len() && s[i] == '/' && s[i + 1] == '*' {
        block_comment_end(s, i + 2)
    } else {
        None
    }
}

/// Position after any run of whitespace and comments starting at `i`.
pub open spec fn spec_blank(s: Seq<char>, i: int) -> int
    decreases s.len() - i,
{
    if 0 <= i && i < s.len() && is_ws_char(s[i]) {
        spec_blank(s, i + 1)
    } else {
        match spec_comment(s, i) {
            Some(j) => if i < j && j <= s.len() {
                spec_blank(s, j)
            } else {
                i
            },
            None => i,
        }
    }
}

pub proof fn lemma_block_comment_end_bounds(s: Seq<char>, i: int)
    requires
        0 <= i <= s.len(),
    ensures
        match block_comment_end(s, i) {
            Some(j) => i + 2 <= j <= s.len(),
            None => true,
        },
    decreases s.len() - i,
{
    if i + 2 <= s.len() && s[i] == '*' && s[i + 1] == '/' {
    } else if i < s.len() {
        lemma_block_comment_end_bounds(s, i + 1);
    }
}

pub proof fn lemma_comment_bounds(s: Seq<char>, i: int)
    requires
        0 <= i <= s.len(),
    ensures
        match spec_comment(s, i) {
            Some(j) => i + 2 <= j <= s.len(),
            None => true,
        },
{
    if i + 2 <= s.len() && s[i] == '/' && s[i + 1] == '*' {
        lemma_block_comment_end_bounds(s, i + 2);
    }
}

pub proof fn lemma_blank_bounds(s: Seq<char>, i: int)
    requires
        0 <= i <= s.len(),
    ensures
        i <= spec_blank(s, i) <= s.len(),
    decreases s.len() - i,
{
    if i < s.len() && is_ws_char(s[i]) {
        lemma_blank_bounds(s, i + 1);
    } else {
        match spec_comment(s, i) {
            Some(j) => {
                lemma_comment_bounds(s, i);
                if i < j && j <= s.len() {
                    lemma_blank_bounds(s, j);
                }
            },
            None => {},
        }
    }
}

// ---------------------------------------------------------------------------
// Identifiers and numbers
// ---------------------------------------------------------------------------

/// An identifier: a letter followed by letters, digits and underscores.
pub open spec fn spec_ident(s: Seq<char>, i: int) -> Option<(Seq<char>, int)> {
    if 0 <= i && i < s.len() && is_alpha_char(s[i]) {
        let j = bounded_advance(s, i + 1, ident_run(s, i + 1));
        Some((s.subrange(i, j), j))
    } else {
        None
    }
}

/// The value of the digits in `s[i .. j)`, read most significant first.
pub open spec fn digits_val(s: Seq<char>, i: int, j: int) -> int
    decreases j - i,
{
    if i < j {
        digits_val(s, i, j - 1) * 10 + (s[j - 1] as u32 as int - 48)
    } else {
        0
    }
}

/// A number literal: one or more digits whose value fits in an `i64`.
/// A literal beyond `i64::MAX` does not parse as a number at all.
pub open spec fn spec_number(s: Seq<char>, i: int) -> Option<(ExprView, int)> {
    if 0 <= i && i < s.len() && is_digit_char(s[i]) {
        let j = bounded_advance(s, i + 1, digit_run(s, i + 1));
        let v = digits_val(s, i, j);
        if v <= i64::MAX as int {
            Some((ExprView::Number(v), j))
        } else {
            None
        }
    } else {
        None
    }
}

// ---------------------------------------------------------------------------
// Keywords (matched character by character; there is no word-boundary check
// beyond what each rule itself demands, exactly as the grammar states them)
// ---------------------------------------------------------------------------

pub open spec fn kw_var(s: Seq<char>, i: int) -> bool {
    0 <= i && i + 3 <= s.len() && s[i] == 'v' && s[i + 1] == 'a' && s[i + 2] == 'r'
}

pub open spec fn kw_break(s: Seq<char>, i: int) -> bool {
    0 <= i && i + 5 <= s.len() && s[i] == 'b' && s[i + 1] == 'r' && s[i + 2] == 'e' && s[i + 3]
        == 'a' && s[i + 4] == 'k'
}

pub open spec fn kw_return(s: Seq<char>, i: int) -> bool {
    0 <= i && i + 6 <= s.len() && s[i] == 'r' && s[i + 1] == 'e' && s[i + 2] == 't' && s[i + 3]
        == 'u' && s[i + 4] == 'r' && s[i + 5] == 'n'
}

pub open spec fn kw_output(s: Seq<char>, i: int) -> bool {
    0 <= i && i + 6 <= s.len() && s[i] == 'o' && s[i + 1] == 'u' && s[i + 2] == 't' && s[i + 3]
        == 'p' && s[i + 4] == 'u' && s[i + 5] == 't'
}

pub open spec fn kw_error(s: Seq<char>, i: int) -> bool {
    0 <= i && i + 5 <= s.len() && s[i] == 'e' && s[i + 1] == 'r' && s[i + 2] == 'r' && s[i + 3]
        == 'o' && s[i + 4] == 'r'
}

pub open spec fn kw_alloc(s: Seq<char>, i: int) -> bool {
    0 <= i && i + 5 <= s.len() && s[i] == 'a' && s[i + 1] == 'l' && s[i + 2] == 'l' && s[i + 3]
        == 'o' && s[i + 4] == 'c'
}

pub open spec fn kw_if(s: Seq<char>, i: int) -> bool {
    0 <= i && i + 2 <= s.len() && s[i] == 'i' && s[i + 1] == 'f'
}

pub open spec fn kw_while(s: Seq<char>, i: int) -> bool {
    0 <= i && i + 5 <= s.len() && s[i] == 'w' && s[i + 1] == 'h' && s[i + 2] == 'i' && s[i + 3]
        == 'l' && s[i + 4] == 'e'
}

pub open spec fn kw_else(s: Seq<char>, i: int) -> bool {
    0 <= i && i + 4 <= s.len() && s[i] == 'e' && s[i + 1] == 'l' && s[i + 2] == 's' && s[i + 3]
        == 'e'
}

// ---------------------------------------------------------------------------
// Expressions, one precedence level per rule, loosest first.
// Binary levels are right-recursive: `1 * 2 * 3` is `Times(1, Times(2, 3))`.
// ---------------------------------------------------------------------------

/// `additive := multiplicative (('+' | '-') additive)?`
pub open spec fn spec_additive(s: Seq<char>, i: int) -> Option<(ExprView, int)>
    decreases s.len() - i, 100int,
{
    match spec_multiplicative(s, i) {
        None => None,
        Some((l, j)) => {
            let k = spec_blank(s, j);
            if k < s.len() && (s[k] == '+' || s[k] == '-') {
                let op = if s[k] == '+' {
                    BinOp::Plus
                } else {
                    BinOp::Minus
                };
                let m = spec_blank(s, k + 1);
                if i < m && m <= s.len() {
                    match spec_additive(s, m) {
                        Some((r, p)) => Some(
                            (ExprView::Binary(op, Box::new(l), Box::new(r)), p),
                        ),
                        None => Some((l, j)),
                    }
                } else {
                    Some((l, j))
                }
            } else {
                Some((l, j))
            }
        },
    }
}

/// `multiplicative := comparison (('*' | '/') multiplicative)?`
pub open spec fn spec_multiplicative(s: Seq<char>, i: int) -> Option<(ExprView, int)>
    decreases s.len() - i, 90int,
{
    match spec_comparison(s, i) {
        None => None,
        Some((l, j)) => {
            let k = spec_blank(s, j);
            if k < s.len() && (s[k] == '*' || s[k] == '/') {
                let op = if s[k] == '*' {
                    BinOp::Times
                } else {
                    BinOp::Divide
                };
                let m = spec_blank(s, k + 1);
                if i < m && m <= s.len() {
                    match spec_multiplicative(s, m) {
                        Some((r, p)) => Some(
                            (ExprView::Binary(op, Box::new(l), Box::new(r)), p),
                        ),
                        None => Some((l, j)),
                    }
                } else {
                    Some((l, j))
                }
            } else {
                Some((l, j))
            }
        },
    }
}

/// `comparison := application (('==' | '>') comparison)?`
pub open spec fn spec_comparison(s: Seq<char>, i: int) -> Option<(ExprView, int)>
    decreases s.len() - i, 80int,
{
    match spec_application(s, i) {
        None => None,
        Some((l, j)) => {
            let k = spec_blank(s, j);
            let eq = k + 2 <= s.len() && s[k] == '=' && s[k + 1] == '=';
            let gt = k < s.len() && s[k] == '>';
            if eq || gt {
                let op = if eq {
                    BinOp::CompareEq
                } else {
                    BinOp::CompareGt
                };
                let m = spec_blank(s, k + if eq { 2int } else { 1int });
                if i < m && m <= s.len() {
                    match spec_comparison(s, m) {
                        Some((r, p)) => Some(
                            (ExprView::Binary(op, Box::new(l), Box::new(r)), p),
                        ),
                        None => Some((l, j)),
                    }
                } else {
                    Some((l, j))
                }
            } else {
                Some((l, j))
            }
        },
    }
}

/// `application := unary ( '(' arguments ')' )*`, folded to the left, so that
/// `f()()` is `Call(Call(f, []), [])`.
pub open spec fn spec_application(s: Seq<char>, i: int) -> Option<(ExprView, int)>
    decreases s.len() - i, 70int,
{
    match spec_unary(s, i) {
        None => None,
        Some((f, j)) => {
            if i <= j && j <= s.len() {
                let (e, p) = spec_app_suffix(s, j, f);
                Some((e, p))
            } else {
                Some((f, j))
            }
        },
    }
}

/// Zero or more `( args )` suffixes after a parsed callee.
pub open spec fn spec_app_suffix(s: Seq<char>, i: int, f: ExprView) -> (ExprView, int)
    decreases s.len() - i, 60int,
{
    let k = spec_blank(s, i);
    if i <= k && k < s.len() && s[k] == '(' {
        match spec_arguments(s, k + 1) {
            Some((args, j)) => {
                let e = ExprView::Call(Box::new(f), args);
                if i < j && j <= s.len() {
                    spec_app_suffix(s, j, e)
                } else {
                    (e, j)
                }
            },
            None => (f, i),
        }
    } else {
        (f, i)
    }
}

/// A possibly-empty comma-separated argument list followed by `)`;
/// the returned position is just after the `)`.
pub open spec fn spec_arguments(s: Seq<char>, i: int) -> Option<(Seq<ExprView>, int)>
    decreases s.len() - i, 120int,
{
    let (args, j) = spec_arg_items(s, i);
    let k = spec_blank(s, j);
    if k < s.len() && s[k] == ')' {
        Some((args, k + 1))
    } else {
        None
    }
}

/// Zero or more arguments `blank expr blank` separated by `,`; the position
/// after the last argument's trailing blank (or `i` itself when empty).
pub open spec fn spec_arg_items(s: Seq<char>, i: int) -> (Seq<ExprView>, int)
    decreases s.len() - i, 110int,
{
    let a = spec_blank(s, i);
    if i <= a && a <= s.len() {
        match spec_additive(s, a) {
            None => (Seq::empty(), i),
            Some((e, j)) => {
                let c = spec_blank(s, j);
                if c < s.len() && s[c] == ',' && i < c + 1 && c + 1 <= s.len() {
                    let (rest, p) = spec_arg_items(s, c + 1);
                    if rest.len() == 0 {
                        // separator matched but no further argument: it stays
                        // unconsumed and the list ends here
                        (seq![e], c)
                    } else {
                        (seq![e].add(rest), p)
                    }
                } else {
                    (seq![e], c)
                }
            },
        }
    } else {
        (Seq::empty(), i)
    }
}

/// `unary := ('&' | '*' | '-') unary | allocation`
pub open spec fn spec_unary(s: Seq<char>, i: int) -> Option<(ExprView, int)>
    decreases s.len() - i, 50int,
{
    if 0 <= i && i < s.len() && (s[i] == '&' || s[i] == '*' || s[i] == '-') {
        let op = if s[i] == '&' {
            UnOp::AddressOf
        } else if s[i] == '*' {
            UnOp::Dereference
        } else {
            UnOp::Negate
        };
        let j = spec_blank(s, i + 1);
        let attempt = if i < j && j <= s.len() {
            spec_unary(s, j)
        } else {
            None
        };
        match attempt {
            Some((e, p)) => Some((ExprView::Unary(op, Box::new(e)), p)),
            None => spec_allocation(s, i),
        }
    } else {
        spec_allocation(s, i)
    }
}

/// `allocation := 'alloc' ws allocation | projection`; the whitespace after
/// the keyword is required and does not admit comments.
pub open spec fn spec_allocation(s: Seq<char>, i: int) -> Option<(ExprView, int)>
    decreases s.len() - i, 40int,
{
    if kw_alloc(s, i) && i + 5 < s.len() && is_ws_char(s[i + 5]) {
        let j = bounded_advance(s, i + 5, ws_run(s, i + 5));
        let attempt = if i < j && j <= s.len() {
            spec_allocation(s, j)
        } else {
            None
        };
        match attempt {
            Some((e, p)) => Some((ExprView::Alloc(Box::new(e)), p)),
            None => spec_projection(s, i),
        }
    } else {
        spec_projection(s, i)
    }
}

/// `projection := atom ('.' ident)+ | atom`; the dots attach directly, with
/// no blank space, and the whole chain becomes one field path.
pub open spec fn spec_projection(s: Seq<char>, i: int) -> Option<(ExprView, int)>
    decreases s.len() - i, 30int,
{
    match spec_atom(s, i) {
        None => None,
        Some((e, j)) => match spec_proj_path(s, j) {
            Some((path, p)) => Some((ExprView::Projection(Box::new(e), path), p)),
            None => Some((e, j)),
        },
    }
}

/// One or more `.ident` suffixes.
pub open spec fn spec_proj_path(s: Seq<char>, i: int) -> Option<(Seq<Seq<char>>, int)>
    decreases s.len() - i,
{
    if 0 <= i && i < s.len() && s[i] == '.' {
        match spec_ident(s, i + 1) {
            Some((id, j)) => if i < j && j <= s.len() {
                match spec_proj_path(s, j) {
                    Some((rest, p)) => Some((seq![id].add(rest), p)),
                    None => Some((seq![id], j)),
                }
            } else {
                Some((seq![id], j))
            },
            None => None,
        }
    } else {
        None
    }
}

/// `atom := number | ident | record | '(' expression ')'`; no blank space is
/// skipped inside the parentheses beyond what the expression itself allows.
pub open spec fn spec_atom(s: Seq<char>, i: int) -> Option<(ExprView, int)>
    decreases s.len() - i, 20int,
{
    match spec_number(s, i) {
        Some(r) => Some(r),
        None => match spec_ident(s, i) {
            Some((id, j)) => Some((ExprView::IdentRef(id), j)),
            None => match spec_record(s, i) {
                Some(r) => Some(r),
                None => {
                    if 0 <= i && i < s.len() && s[i] == '(' {
                        match spec_additive(s, i + 1) {
                            Some((e, j)) => if 0 <= j && j < s.len() && s[j] == ')' {
                                Some((e, j + 1))
                            } else {
                                None
                            },
                            None => None,
                        }
                    } else {
                        None
                    }
                },
            },
        },
    }
}

/// `record := '{' fields '}'` with a possibly-empty field list; `{}` is the
/// empty record, but `{ }` is not a record (the closing brace must follow the
/// field list directly).
pub open spec fn spec_record(s: Seq<char>, i: int) -> Option<(ExprView, int)>
    decreases s.len() - i, 10int,
{
    if 0 <= i && i < s.len() && s[i] == '{' {
        match spec_record_fields(s, i + 1) {
            Some((fields, j)) => if 0 <= j && j < s.len() && s[j] == '}' {
                Some((ExprView::Record(fields), j + 1))
            } else {
                None
            },
            None => {
                if i + 1 < s.len() && s[i + 1] == '}' {
                    Some((ExprView::Record(Seq::empty()), i + 2))
                } else {
                    None
                }
            },
        }
    } else {
        None
    }
}

/// One or more `blank ident blank ':' blank expr blank` fields separated by
/// `,`.
pub open spec fn spec_record_fields(s: Seq<char>, i: int) -> Option<
    (Seq<(Seq<char>, ExprView)>, int),
>
    decreases s.len() - i, 120int,
{
    let a = spec_blank(s, i);
    match spec_ident(s, a) {
        None => None,
        Some((id, j)) => {
            let b = spec_blank(s, j);
            if b < s.len() && s[b] == ':' {
                let c = spec_blank(s, b + 1);
                if i <= c && c <= s.len() {
                    match spec_additive(s, c) {
                        None => None,
                        Some((e, p)) => {
                            let q = spec_blank(s, p);
                            if q < s.len() && s[q] == ',' && i < q + 1 && q + 1 <= s.len() {
                                match spec_record_fields(s, q + 1) {
                                    Some((rest, r)) => Some((seq![(id, e)].add(rest), r)),
                                    None => Some((seq![(id, e)], q)),
                                }
                            } else {
                                Some((seq![(id, e)], q))
                            }
                        },
                    }
                } else {
                    None
                }
            } else {
                None
            }
        },
    }
}

// ---------------------------------------------------------------------------
// Statements
// ---------------------------------------------------------------------------

/// Zero or more `,` `blank` `ident` groups after the first declared name.
pub open spec fn spec_var_rest(s: Seq<char>, i: int) -> (Seq<Seq<char>>, int)
    decreases s.len() - i,
{
    if 0 <= i && i < s.len() && s[i] == ',' {
        let a = spec_blank(s, i + 1);
        match spec_ident(s, a) {
            Some((id, j)) => if i < j && j <= s.len() {
                let (rest, p) = spec_var_rest(s, j);
                (seq![id].add(rest), p)
            } else {
                (seq![id], j)
            },
            None => (Seq::empty(), i),
        }
    } else {
        (Seq::empty(), i)
    }
}

/// The `var` declaration form: `var ws ident (, blank ident)*`.
pub open spec fn spec_sc_var(s: Seq<char>, i: int) -> Option<(StmtView, int)> {
    if kw_var(s, i) && i + 3 < s.len() && is_ws_char(s[i + 3]) {
        let j = bounded_advance(s, i + 3, ws_run(s, i + 3));
        match spec_ident(s, j) {
            Some((first, k)) => {
                let (rest, p) = spec_var_rest(s, k);
                Some((StmtView::VarDecl(seq![first].add(rest)), p))
            },
            None => None,
        }
    } else {
        None
    }
}

/// `return`, with an optional whitespace-separated value.
pub open spec fn spec_sc_return(s: Seq<char>, i: int) -> (StmtView, int)
    decreases s.len() - i, 140int,
{
    if i + 6 < s.len() && is_ws_char(s[i + 6]) {
        let j = bounded_advance(s, i + 6, ws_run(s, i + 6));
        match spec_additive(s, j) {
            Some((e, p)) => (StmtView::Return(Some(e)), p),
            None => (StmtView::Return(None), i + 6),
        }
    } else {
        (StmtView::Return(None), i + 6)
    }
}

/// `output ws expr`.
pub open spec fn spec_sc_output(s: Seq<char>, i: int) -> Option<(StmtView, int)>
    decreases s.len() - i, 140int,
{
    if kw_output(s, i) && i + 6 < s.len() && is_ws_char(s[i + 6]) {
        let j = bounded_advance(s, i + 6, ws_run(s, i + 6));
        match spec_additive(s, j) {
            Some((e, p)) => Some((StmtView::Output(e), p)),
            None => None,
        }
    } else {
        None
    }
}

/// `error ws expr`.
pub open spec fn spec_sc_error(s: Seq<char>, i: int) -> Option<(StmtView, int)>
    decreases s.len() - i, 140int,
{
    if kw_error(s, i) && i + 5 < s.len() && is_ws_char(s[i + 5]) {
        let j = bounded_advance(s, i + 5, ws_run(s, i + 5));
        match spec_additive(s, j) {
            Some((e, p)) => Some((StmtView::Error(e), p)),
            None => None,
        }
    } else {
        None
    }
}

/// An assignment, or failing that, a bare expression statement.
pub open spec fn spec_sc_expr(s: Seq<char>, i: int) -> Option<(StmtView, int)>
    decreases s.len() - i, 140int,
{
    match spec_additive(s, i) {
        None => None,
        Some((l, j)) => {
            let k = spec_blank(s, j);
            if k < s.len() && s[k] == '=' {
                let m = spec_blank(s, k + 1);
                if i < m && m <= s.len() {
                    match spec_additive(s, m) {
                        Some((r, p)) => Some((StmtView::Assign(l, r), p)),
                        None => Some((StmtView::ExpressionStatement(l), j)),
                    }
                } else {
                    Some((StmtView::ExpressionStatement(l), j))
                }
            } else {
                Some((StmtView::ExpressionStatement(l), j))
            }
        },
    }
}

/// The semicolon-terminated statement forms, tried in order: `var`, `break`,
/// `return`, `output`, `error`, assignment, expression statement. The
/// terminating `;` itself belongs to the statement rule, so a form that
/// matches here but is not followed by `;` makes the whole statement fail.
pub open spec fn spec_statement_contents(s: Seq<char>, i: int) -> Option<(StmtView, int)>
    decreases s.len() - i, 150int,
{
    match spec_sc_var(s, i) {
        Some(r) => Some(r),
        None => if kw_break(s, i) {
            Some((StmtView::Break, i + 5))
        } else if kw_return(s, i) {
            Some(spec_sc_return(s, i))
        } else {
            match spec_sc_output(s, i) {
                Some(r) => Some(r),
                None => match spec_sc_error(s, i) {
                    Some(r) => Some(r),
                    None => spec_sc_expr(s, i),
                },
            }
        },
    }
}

/// The first statement alternative: a simple form followed by `;` and
/// trailing blank space. `a` is the position after the leading blank space.
pub open spec fn spec_stmt_simple(s: Seq<char>, i: int, a: int) -> Option<(StmtView, int)>
    decreases s.len() - i, 160int,
{
    if i <= a && a <= s.len() {
        match spec_statement_contents(s, a) {
            Some((st, j)) => {
                let k = spec_blank(s, j);
                if k < s.len() && s[k] == ';' {
                    Some((st, spec_blank(s, k + 1)))
                } else {
                    None
                }
            },
            None => None,
        }
    } else {
        None
    }
}

/// The `while` alternative: `while blank ( blank cond blank ) blank branch?`.
pub open spec fn spec_stmt_while(s: Seq<char>, i: int, a: int) -> Option<(StmtView, int)>
    decreases s.len() - i, 160int,
{
    if kw_while(s, a) && i <= a {
        let b = spec_blank(s, a + 5);
        if b < s.len() && s[b] == '(' {
            let c = spec_blank(s, b + 1);
            if i < c && c <= s.len() {
                match spec_additive(s, c) {
                    None => None,
                    Some((cond, d)) => {
                        let e = spec_blank(s, d);
                        if e < s.len() && s[e] == ')' {
                            let f = spec_blank(s, e + 1);
                            if i < f && f <= s.len() {
                                match spec_branch(s, f) {
                                    Some((body, g)) => Some(
                                        (StmtView::While { cond, then: Some(body) }, g),
                                    ),
                                    None => Some((StmtView::While { cond, then: None }, f)),
                                }
                            } else {
                                None
                            }
                        } else {
                            None
                        }
                    },
                }
            } else {
                None
            }
        } else {
            None
        }
    } else {
        None
    }
}

/// The `if` alternative. Both branches are optional; an `else` whose own
/// branch fails is left unconsumed. The `else` binds to the nearest
/// unmatched `if` because the inner statement is parsed greedily first.
pub open spec fn spec_stmt_if(s: Seq<char>, i: int, a: int) -> Option<(StmtView, int)>
    decreases s.len() - i, 160int,
{
    if kw_if(s, a) && i <= a {
        let b = spec_blank(s, a + 2);
        if b < s.len() && s[b] == '(' {
            let c = spec_blank(s, b + 1);
            if i < c && c <= s.len() {
                match spec_additive(s, c) {
                    None => None,
                    Some((cond, d)) => {
                        let e = spec_blank(s, d);
                        if e < s.len() && s[e] == ')' {
                            let f = spec_blank(s, e + 1);
                            if i < f && f <= s.len() {
                                let (then_o, pt) = match spec_branch(s, f) {
                                    Some((b2, g)) => (Some(b2), g),
                                    None => (None, f),
                                };
                                let h = spec_blank(s, pt);
                                let else_attempt: Option<(Seq<StmtView>, int)> = if kw_else(
                                    s,
                                    h,
                                ) {
                                    let m = spec_blank(s, h + 4);
                                    if i < m && m <= s.len() {
                                        spec_branch(s, m)
                                    } else {
                                        None
                                    }
                                } else {
                                    None
                                };
                                match else_attempt {
                                    Some((eb, q)) => Some(
                                        (StmtView::If { cond, then: then_o, otherwise: Some(eb) }, q),
                                    ),
                                    None => Some(
                                        (StmtView::If { cond, then: then_o, otherwise: None }, pt),
                                    ),
                                }
                            } else {
                                None
                            }
                        } else {
                            None
                        }
                    },
                }
            } else {
                None
            }
        } else {
            None
        }
    } else {
        None
    }
}

/// One statement. The alternatives, in order: a semicolon-terminated simple
/// form with blank space around it; `while`; `if`; a bare braced block. The
/// block alternative matches at the raw start position, so callers skip
/// blank space before it.
pub open spec fn spec_statement(s: Seq<char>, i: int) -> Option<(StmtView, int)>
    decreases s.len() - i, 170int,
{
    let a = spec_blank(s, i);
    match spec_stmt_simple(s, i, a) {
        Some(r) => Some(r),
        None => match spec_stmt_while(s, i, a) {
            Some(r) => Some(r),
            None => match spec_stmt_if(s, i, a) {
                Some(r) => Some(r),
                None => if 0 <= i && i < s.len() && s[i] == '{' {
                    match spec_statement_list(s, i + 1) {
                        Some((list, j)) => if 0 <= j && j < s.len() && s[j] == '}' {
                            Some((StmtView::Block(list), j + 1))
                        } else {
                            None
                        },
                        None => None,
                    }
                } else {
                    None
                },
            },
        },
    }
}

/// The braced form of a branch: `{ statements? }`; an explicit `{ }` gives
/// an empty branch, not an absent one.
pub open spec fn spec_branch_braced(s: Seq<char>, i: int) -> Option<(Seq<StmtView>, int)>
    decreases s.len() - i, 175int,
{
    if 0 <= i && i < s.len() && s[i] == '{' {
        match spec_statement_list(s, i + 1) {
            Some((list, j)) => if 0 <= j && j < s.len() && s[j] == '}' {
                Some((list, j + 1))
            } else {
                None
            },
            None => {
                let a = spec_blank(s, i + 1);
                if a < s.len() && s[a] == '}' {
                    Some((Seq::empty(), a + 1))
                } else {
                    None
                }
            },
        }
    } else {
        None
    }
}

/// A branch of `if` or `while`: either a braced, possibly-empty statement
/// list, or a single unbraced statement.
pub open spec fn spec_branch(s: Seq<char>, i: int) -> Option<(Seq<StmtView>, int)>
    decreases s.len() - i, 180int,
{
    match spec_branch_braced(s, i) {
        Some(r) => Some(r),
        None => match spec_statement(s, i) {
            Some((st, j)) => Some((seq![st], j)),
            None => None,
        },
    }
}

/// One or more statements, each surrounded by blank space.
pub open spec fn spec_statement_list(s: Seq<char>, i: int) -> Option<(Seq<StmtView>, int)>
    decreases s.len() - i, 190int,
{
    let a = spec_blank(s, i);
    if i <= a && a <= s.len() {
        match spec_statement(s, a) {
            None => None,
            Some((st, j)) => {
                let b = spec_blank(s, j);
                if i < b && b <= s.len() {
                    match spec_statement_list(s, b) {
                        Some((rest, p)) => Some((seq![st].add(rest), p)),
                        None => Some((seq![st], b)),
                    }
                } else {
                    Some((seq![st], b))
                }
            },
        }
    } else {
        None
    }
}

// ---------------------------------------------------------------------------
// Functions and programs
// ---------------------------------------------------------------------------

/// A possibly-empty comma-separated parameter list, each name surrounded by
/// blank space. On zero parameters the position is returned unchanged, so a
/// `)` must follow directly.
pub open spec fn spec_params(s: Seq<char>, i: int) -> (Seq<Seq<char>>, int)
    decreases s.len() - i,
{
    let a = spec_blank(s, i);
    match spec_ident(s, a) {
        None => (Seq::empty(), i),
        Some((id, j)) => {
            let b = spec_blank(s, j);
            if b < s.len() && s[b] == ',' && i < b + 1 && b + 1 <= s.len() {
                let (rest, p) = spec_params(s, b + 1);
                if rest.len() == 0 {
                    (seq![id], b)
                } else {
                    (seq![id].add(rest), p)
                }
            } else {
                (seq![id], b)
            }
        },
    }
}

/// `function := ident blank '(' params ')' blank '{' body? blank '}'`;
/// an absent body is an empty body.
pub open spec fn spec_function(s: Seq<char>, i: int) -> Option<(FunctionView, int)>
    decreases s.len() - i, 200int,
{
    match spec_ident(s, i) {
        None => None,
        Some((name, j)) => {
            let a = spec_blank(s, j);
            if a < s.len() && s[a] == '(' {
                let (params, b) = spec_params(s, a + 1);
                if 0 <= b && b < s.len() && s[b] == ')' {
                    let c = spec_blank(s, b + 1);
                    if c < s.len() && s[c] == '{' && i < c + 1 {
                        match spec_statement_list(s, c + 1) {
                            Some((body, d)) => if 0 <= d && d < s.len() && s[d] == '}' {
                                Some((FunctionView { name, params, body }, d + 1))
                            } else {
                                None
                            },
                            None => {
                                let e = spec_blank(s, c + 1);
                                if e < s.len() && s[e] == '}' {
                                    Some((FunctionView { name, params, body: Seq::empty() }, e + 1))
                                } else {
                                    None
                                }
                            },
                        }
                    } else {
                        None
                    }
                } else {
                    None
                }
            } else {
                None
            }
        },
    }
}

/// As many functions as will parse, each surrounded by blank space. The
/// returned position is where the first failing function attempt began
/// (after the blank space before it); on full success that is the end of
/// the input.
pub open spec fn spec_functions(s: Seq<char>, i: int) -> (Seq<FunctionView>, int)
    decreases s.len() - i, 210int,
{
    let a = spec_blank(s, i);
    if i <= a && a <= s.len() {
        match spec_function(s, a) {
            None => (Seq::empty(), a),
            Some((f, j)) => {
                let b = spec_blank(s, j);
                if i < b && b <= s.len() {
                    let (rest, p) = spec_functions(s, b);
                    (seq![f].add(rest), p)
                } else {
                    (seq![f], b)
                }
            },
        }
    } else {
        (Seq::empty(), i)
    }
}

/// The whole-program grammar: one or more functions covering the entire
/// input. On failure the offset where parsing stopped is returned.
pub open spec fn spec_program(s: Seq<char>) -> Result<ProgramView, int> {
    let (funcs, p) = spec_functions(s, 0);
    if funcs.len() > 0 && p == s.len() {
        Ok(ProgramView { functions: funcs })
    } else {
        Err(p)
    }
}

// ---------------------------------------------------------------------------
// Whole-input forms of the individual rules, as the rule-testing entry
// points use them: the rule must consume every character.
// ---------------------------------------------------------------------------

pub open spec fn spec_expression_full(s: Seq<char>) -> Option<ExprView> {
    match spec_additive(s, 0) {
        Some((e, j)) => if j == s.len() {
            Some(e)
        } else {
            None
        },
        None => None,
    }
}

pub open spec fn spec_statement_full(s: Seq<char>) -> Option<StmtView> {
    match spec_statement(s, 0) {
        Some((st, j)) => if j == s.len() {
            Some(st)
        } else {
            None
        },
        None => None,
    }
}

pub open spec fn spec_function_full(s: Seq<char>) -> Option<FunctionView> {
    match spec_function(s, 0) {
        Some((f, j)) => if j == s.len() {
            Some(f)
        } else {
            None
        },
        None => None,
    }
}

pub open spec fn spec_ident_full(s: Seq<char>) -> Option<Seq<char>> {
    match spec_ident(s, 0) {
        Some((id, j)) => if j == s.len() {
            Some(id)
        } else {
            None
        },
        None => None,
    }
}

pub open spec fn spec_comment_full(s: Seq<char>) -> bool {
    match spec_comment(s, 0) {
        Some(j) => j == s.len(),
        None => false,
    }
}

// ---------------------------------------------------------------------------
// Executable character classes and scanners
// ---------------------------------------------------------------------------

fn ws_char(c: char) -> (b: bool)
    ensures
        b == is_ws_char(c),
{
    c == ' ' || c == '\n' || c == '\t' || c == '\r'
}

fn digit_char(c: char) -> (b: bool)
    ensures
        b == is_digit_char(c),
{
    let u = c as u32;
    48 <= u && u <= 57
}

fn alpha_char(c: char) -> (b: bool)
    ensures
        b == is_alpha_char(c),
{
    let u = c as u32;
    (65 <= u && u <= 90) || (97 <= u && u <= 122)
}

fn ident_char(c: char) -> (b: bool)
    ensures
        b == is_ident_char(c),
{
    alpha_char(c) || digit_char(c) || c == '_'
}

fn scan_ws(s: &str, len: usize, i: usize) -> (j: usize)
    requires
        len == s@.len(),
        i <= len,
    ensures
        i <= j <= len,
        j as int == i + ws_run(s@, i as int),
        j as int == bounded_advance(s@, i as int, ws_run(s@, i as int)),
    decreases len - i,
{
    if i < len && ws_char(s.get_char(i)) {
        scan_ws(s, len, i + 1)
    } else {
        i
    }
}

fn scan_line(s: &str, len: usize, i: usize) -> (j: usize)
    requires
        len == s@.len(),
        i <= len,
    ensures
        i <= j <= len,
        j as int == i + line_run(s@, i as int),
        j as int == bounded_advance(s@, i as int, line_run(s@, i as int)),
    decreases len - i,
{
    if i < len && s.get_char(i) != '\n' {
        scan_line(s, len, i + 1)
    } else {
        i
    }
}

fn scan_ident_chars(s: &str, len: usize, i: usize) -> (j: usize)
    requires
        len == s@.len(),
        i <= len,
    ensures
        i <= j <= len,
        j as int == i + ident_run(s@, i as int),
        j as int == bounded_advance(s@, i as int, ident_run(s@, i as int)),
    decreases len - i,
{
    if i < len && ident_char(s.get_char(i)) {
        scan_ident_chars(s, len, i + 1)
    } else {
        i
    }
}

fn scan_digits(s: &str, len: usize, i: usize) -> (j: usize)
    requires
        len == s@.len(),
        i <= len,
    ensures
        i <= j <= len,
        j as int == i + digit_run(s@, i as int),
        j as int == bounded_advance(s@, i as int, digit_run(s@, i as int)),
    decreases len - i,
{
    if i < len && digit_char(s.get_char(i)) {
        scan_digits(s, len, i + 1)
    } else {
        i
    }
}

fn scan_block_comment_end(s: &str, len: usize, i: usize) -> (r: Option<usize>)
    requires
        len == s@.len(),
        i <= len,
    ensures
        match r {
            Some(j) => block_comment_end(s@, i as int) == Some(j as int) && i < j <= len,
            None => block_comment_end(s@, i as int) is None,
        },
    decreases len - i,
{
    if len - i >= 2 && s.get_char(i) == '*' && s.get_char(i + 1) == '/' {
        Some(i + 2)
    } else if i < len {
        scan_block_comment_end(s, len, i + 1)
    } else {
        None
    }
}

fn scan_comment(s: &str, len: usize, i: usize) -> (r: Option<usize>)
    requires
        len == s@.len(),
        i <= len,
    ensures
        match r {
            Some(j) => spec_comment(s@, i as int) == Some(j as int) && i < j <= len,
            None => spec_comment(s@, i as int) is None,
        },
{
    if len - i >= 2 && s.get_char(i) == '/' {
        let c2 = s.get_char(i + 1);
        if c2 == '/' {
            Some(scan_line(s, len, i + 2))
        } else if c2 == '*' {
            scan_block_comment_end(s, len, i + 2)
        } else {
            None
        }
    } else {
        None
    }
}

fn scan_blank(s: &str, len: usize, i: usize) -> (j: usize)
    requires
        len == s@.len(),
        i <= len,
    ensures
        i <= j <= len,
        j as int == spec_blank(s@, i as int),
    decreases len - i,
{
    if i < len && ws_char(s.get_char(i)) {
        scan_blank(s, len, i + 1)
    } else {
        match scan_comment(s, len, i) {
            Some(j) => scan_blank(s, len, j),
            None => i,
        }
    }
}

// ---------------------------------------------------------------------------
// Executable identifier and number rules
// ---------------------------------------------------------------------------

fn parse_raw_ident(s: &str, len: usize, i: usize) -> (r: Option<(String, usize)>)
    requires
        len == s@.len(),
        i <= len,
    ensures
        match r {
            Some((id, j)) => spec_ident(s@, i as int) == Some((id@, j as int)) && i < j <= len,
            None => spec_ident(s@, i as int) is None,
        },
{
    if i < len && alpha_char(s.get_char(i)) {
        let j = scan_ident_chars(s, len, i + 1);
        let sub = s.substring_char(i, j);
        Some((sub.to_owned(), j))
    } else {
        None
    }
}

proof fn lemma_digits_val_bounds(s: Seq<char>, i: int, j: int)
    requires
        i <= j,
        forall|m: int| i <= m < j ==> is_digit_char(#[trigger] s[m]),
    ensures
        0 <= digits_val(s, i, j),
    decreases j - i,
{
    if i < j {
        lemma_digits_val_bounds(s, i, j - 1);
    }
}

/// Once the digits read so far exceed the target, any further digits keep the
/// value beyond it.
proof fn lemma_digits_val_grows(s: Seq<char>, i: int, j1: int, j2: int)
    requires
        i <= j1 <= j2,
        forall|m: int| i <= m < j2 ==> is_digit_char(#[trigger] s[m]),
    ensures
        digits_val(s, i, j1) <= digits_val(s, i, j2),
    decreases j2 - j1,
{
    if j1 < j2 {
        lemma_digits_val_grows(s, i, j1, j2 - 1);
        lemma_digits_val_bounds(s, i, j2 - 1);
    }
}

/// All characters of a digit run are digits.
proof fn lemma_digit_run_digits(s: Seq<char>, i: int)
    requires
        0 <= i <= s.len(),
    ensures
        forall|m: int| i <= m < i + digit_run(s, i) ==> is_digit_char(#[trigger] s[m]),
        i + digit_run(s, i) <= s.len(),
    decreases s.len() - i,
{
    if i < s.len() && is_digit_char(s[i]) {
        lemma_digit_run_digits(s, i + 1);
    }
}

fn parse_number(s: &str, len: usize, i: usize) -> (r: Option<(Expression, usize)>)
    requires
        len == s@.len(),
        i <= len,
    ensures
        match r {
            Some((e, j)) => spec_number(s@, i as int) == Some((e@, j as int)) && i < j <= len,
            None => spec_number(s@, i as int) is None,
        },
{
    if i < len && digit_char(s.get_char(i)) {
        let j = scan_digits(s, len, i + 1);
        proof {
            lemma_digit_run_digits(s@, i + 1);
            assert(j as int == i + 1 + digit_run(s@, i + 1 as int));
        }
        let ghost total = digits_val(s@, i as int, j as int);
        let mut val: u64 = 0;
        let mut k: usize = i;
        while k < j
            invariant
                i <= k <= j <= len,
                i < len,
                len == s@.len(),
                is_digit_char(s@[i as int]),
                j as int == bounded_advance(s@, i + 1, digit_run(s@, i + 1)),
                forall|m: int| i <= m < j ==> is_digit_char(#[trigger] s@[m]),
                val as int == digits_val(s@, i as int, k as int),
                val <= i64::MAX as u64,
                total == digits_val(s@, i as int, j as int),
            decreases j - k,
        {
            let d = (s.get_char(k) as u32 - 48) as u64;
            let cap: u64 = (i64::MAX as u64 - d) / 10;
            if val > cap {
                proof {
                    let m = i64::MAX as int;
                    let di = d as int;
                    let v = val as int;
                    // cap is the largest accumulator a further digit d still fits on
                    vstd::arithmetic::div_mod::lemma_fundamental_div_mod(m - di, 10);
                    vstd::arithmetic::div_mod::lemma_mod_division_less_than_divisor(m - di, 10);
                    assert(10 * v + di > m) by (nonlinear_arith)
                        requires
                            v > (m - di) / 10,
                            m - di == 10 * ((m - di) / 10) + (m - di) % 10,
                            0 <= (m - di) % 10 < 10,
                    ;
                    assert(digits_val(s@, i as int, k + 1) == digits_val(s@, i as int, k as int)
                        * 10 + (s@[k as int] as u32 as int - 48));
                    assert(s@[k as int] as u32 as int - 48 == di);
                    assert(digits_val(s@, i as int, k + 1) == 10 * v + di) by (nonlinear_arith)
                        requires
                            digits_val(s@, i as int, k + 1) == digits_val(s@, i as int, k as int)
                                * 10 + di,
                            digits_val(s@, i as int, k as int) == v,
                    ;
                    lemma_digits_val_grows(s@, i as int, k + 1, j as int);
                    assert(digits_val(s@, i as int, j as int) > i64::MAX as int);
                    assert(spec_number(s@, i as int) is None);
                }
                return None;
            }
            proof {
                let m = i64::MAX as int;
                let di = d as int;
                let v = val as int;
                vstd::arithmetic::div_mod::lemma_fundamental_div_mod(m - di, 10);
                vstd::arithmetic::div_mod::lemma_mod_division_less_than_divisor(m - di, 10);
                assert(10 * v + di <= m) by (nonlinear_arith)
                    requires
                        v <= (m - di) / 10,
                        m - di == 10 * ((m - di) / 10) + (m - di) % 10,
                        0 <= (m - di) % 10 < 10,
                        0 <= di <= 9,
                        0 <= v,
                ;
                assert(digits_val(s@, i as int, k + 1) == 10 * v + di);
            }
            val = val * 10 + d;
            k = k + 1;
        }
        Some((Expression::Number(val as i64), j))
    } else {
        None
    }
}

// ---------------------------------------------------------------------------
// Executable keyword matchers
// ---------------------------------------------------------------------------

fn at_kw_var(s: &str, len: usize, i: usize) -> (b: bool)
    requires
        len == s@.len(),
        i <= len,
    ensures
        b == kw_var(s@, i as int),
{
    len - i >= 3 && s.get_char(i) == 'v' && s.get_char(i + 1) == 'a' && s.get_char(i + 2) == 'r'
}

fn at_kw_break(s: &str, len: usize, i: usize) -> (b: bool)
    requires
        len == s@.len(),
        i <= len,
    ensures
        b == kw_break(s@, i as int),
{
    len - i >= 5 && s.get_char(i) == 'b' && s.get_char(i + 1) == 'r' && s.get_char(i + 2) == 'e'
        && s.get_char(i + 3) == 'a' && s.get_char(i + 4) == 'k'
}

fn at_kw_return(s: &str, len: usize, i: usize) -> (b: bool)
    requires
        len == s@.len(),
        i <= len,
    ensures
        b == kw_return(s@, i as int),
{
    len - i >= 6 && s.get_char(i) == 'r' && s.get_char(i + 1) == 'e' && s.get_char(i + 2) == 't'
        && s.get_char(i + 3) == 'u' && s.get_char(i + 4) == 'r' && s.get_char(i + 5) == 'n'
}

fn at_kw_output(s: &str, len: usize, i: usize) -> (b: bool)
    requires
        len == s@.len(),
        i <= len,
    ensures
        b == kw_output(s@, i as int),
{
    len - i >= 6 && s.get_char(i) == 'o' && s.get_char(i + 1) == 'u' && s.get_char(i + 2) == 't'
        && s.get_char(i + 3) == 'p' && s.get_char(i + 4) == 'u' && s.get_char(i + 5) == 't'
}

fn at_kw_error(s: &str, len: usize, i: usize) -> (b: bool)
    requires
        len == s@.len(),
        i <= len,
    ensures
        b == kw_error(s@, i as int),
{
    len - i >= 5 && s.get_char(i) == 'e' && s.get_char(i + 1) == 'r' && s.get_char(i + 2) == 'r'
        && s.get_char(i + 3) == 'o' && s.get_char(i + 4) == 'r'
}

fn at_kw_alloc(s: &str, len: usize, i: usize) -> (b: bool)
    requires
        len == s@.len(),
        i <= len,
    ensures
        b == kw_alloc(s@, i as int),
{
    len - i >= 5 && s.get_char(i) == 'a' && s.get_char(i + 1) == 'l' && s.get_char(i + 2) == 'l'
        && s.get_char(i + 3) == 'o' && s.get_char(i + 4) == 'c'
}

fn at_kw_if(s: &str, len: usize, i: usize) -> (b: bool)
    requires
        len == s@.len(),
        i <= len,
    ensures
        b == kw_if(s@, i as int),
{
    len - i >= 2 && s.get_char(i) == 'i' && s.get_char(i + 1) == 'f'
}

fn at_kw_while(s: &str, len: usize, i: usize) -> (b: bool)
    requires
        len == s@.len(),
        i <= len,
    ensures
        b == kw_while(s@, i as int),
{
    len - i >= 5 && s.get_char(i) == 'w' && s.get_char(i + 1) == 'h' && s.get_char(i + 2) == 'i'
        && s.get_char(i + 3) == 'l' && s.get_char(i + 4) == 'e'
}

fn at_kw_else(s: &str, len: usize, i: usize) -> (b: bool)
    requires
        len == s@.len(),
        i <= len,
    ensures
        b == kw_else(s@, i as int),
{
    len - i >= 4 && s.get_char(i) == 'e' && s.get_char(i + 1) == 'l' && s.get_char(i + 2) == 's'
        && s.get_char(i + 3) == 'e'
}

// ---------------------------------------------------------------------------
// Executable expression rules
// ---------------------------------------------------------------------------

fn parse_additive(s: &str, len: usize, i: usize) -> (r: Option<(Expression, usize)>)
    requires
        len == s@.len(),
        i <= len,
    ensures
        match r {
            Some((e, j)) => spec_additive(s@, i as int) == Some((e@, j as int)) && i < j <= len,
            None => spec_additive(s@, i as int) is None,
        },
    decreases len - i, 100int,
{
    match parse_multiplicative(s, len, i) {
        None => None,
        Some((l, j)) => {
            let k = scan_blank(s, len, j);
            if k < len && (s.get_char(k) == '+' || s.get_char(k) == '-') {
                let op = if s.get_char(k) == '+' {
                    BinOp::Plus
                } else {
                    BinOp::Minus
                };
                let m = scan_blank(s, len, k + 1);
                match parse_additive(s, len, m) {
                    Some((rgt, p)) => Some(
                        (Expression::BinaryExpression(op, Box::new(l), Box::new(rgt)), p),
                    ),
                    None => Some((l, j)),
                }
            } else {
                Some((l, j))
            }
        },
    }
}

fn parse_multiplicative(s: &str, len: usize, i: usize) -> (r: Option<(Expression, usize)>)
    requires
        len == s@.len(),
        i <= len,
    ensures
        match r {
            Some((e, j)) => spec_multiplicative(s@, i as int) == Some((e@, j as int)) && i < j
                <= len,
            None => spec_multiplicative(s@, i as int) is None,
        },
    decreases len - i, 90int,
{
    match parse_comparison(s, len, i) {
        None => None,
        Some((l, j)) => {
            let k = scan_blank(s, len, j);
            if k < len && (s.get_char(k) == '*' || s.get_char(k) == '/') {
                let op = if s.get_char(k) == '*' {
                    BinOp::Times
                } else {
                    BinOp::Divide
                };
                let m = scan_blank(s, len, k + 1);
                match parse_multiplicative(s, len, m) {
                    Some((rgt, p)) => Some(
                        (Expression::BinaryExpression(op, Box::new(l), Box::new(rgt)), p),
                    ),
                    None => Some((l, j)),
                }
            } else {
                Some((l, j))
            }
        },
    }
}

fn parse_comparison(s: &str, len: usize, i: usize) -> (r: Option<(Expression, usize)>)
    requires
        len == s@.len(),
        i <= len,
    ensures
        match r {
            Some((e, j)) => spec_comparison(s@, i as int) == Some((e@, j as int)) && i < j <= len,
            None => spec_comparison(s@, i as int) is None,
        },
    decreases len - i, 80int,
{
    match parse_application(s, len, i) {
        None => None,
        Some((l, j)) => {
            let k = scan_blank(s, len, j);
            let eq = len - k >= 2 && s.get_char(k) == '=' && s.get_char(k + 1) == '=';
            let gt = k < len && s.get_char(k) == '>';
            if eq || gt {
                let op = if eq {
                    BinOp::CompareEq
                } else {
                    BinOp::CompareGt
                };
                let step: usize = if eq {
                    2
                } else {
                    1
                };
                let m = scan_blank(s, len, k + step);
                match parse_comparison(s, len, m) {
                    Some((rgt, p)) => Some(
                        (Expression::BinaryExpression(op, Box::new(l), Box::new(rgt)), p),
                    ),
                    None => Some((l, j)),
                }
            } else {
                Some((l, j))
            }
        },
    }
}

fn parse_application(s: &str, len: usize, i: usize) -> (r: Option<(Expression, usize)>)
    requires
        len == s@.len(),
        i <= len,
    ensures
        match r {
            Some((e, j)) => spec_application(s@, i as int) == Some((e@, j as int)) && i < j <= len,
            None => spec_application(s@, i as int) is None,
        },
    decreases len - i, 70int,
{
    match parse_unary(s, len, i) {
        None => None,
        Some((f, j)) => {
            let (e, p) = parse_app_suffix(s, len, j, f);
            Some((e, p))
        },
    }
}

#[verifier::rlimit(50)]
fn parse_app_suffix(s: &str, len: usize, i: usize, f: Expression) -> (r: (Expression, usize))
    requires
        len == s@.len(),
        i <= len,
    ensures
        spec_app_suffix(s@, i as int, f@) == (r.0@, r.1 as int),
        i <= r.1 <= len,
    decreases len - i, 60int,
{
    let k = scan_blank(s, len, i);
    if k < len && s.get_char(k) == '(' {
        match parse_arguments(s, len, k + 1) {
            Some((args, j)) => {
                let e = Expression::Call(Box::new(f), args);
                parse_app_suffix(s, len, j, e)
            },
            None => (f, i),
        }
    } else {
        (f, i)
    }
}

fn parse_arguments(s: &str, len: usize, i: usize) -> (r: Option<(Vec<Box<Expression>>, usize)>)
    requires
        len == s@.len(),
        i <= len,
    ensures
        match r {
            Some((v, j)) => spec_arguments(s@, i as int) == Some((view_expr_boxes(v@), j as int))
                && i < j <= len,
            None => spec_arguments(s@, i as int) is None,
        },
    decreases len - i, 120int,
{
    let (items, p) = parse_arg_items(s, len, i);
    let k = scan_blank(s, len, p);
    if k < len && s.get_char(k) == ')' {
        Some((items, k + 1))
    } else {
        None
    }
}

fn parse_arg_items(s: &str, len: usize, i: usize) -> (r: (Vec<Box<Expression>>, usize))
    requires
        len == s@.len(),
        i <= len,
    ensures
        spec_arg_items(s@, i as int) == (view_expr_boxes(r.0@), r.1 as int),
        r.0@.len() == view_expr_boxes(r.0@).len(),
        i <= r.1 <= len,
    decreases len - i, 110int,
{
    let a = scan_blank(s, len, i);
    match parse_additive(s, len, a) {
        None => {
            let v: Vec<Box<Expression>> = Vec::new();
            proof {
                assert(view_expr_boxes(v@) =~= Seq::<ExprView>::empty());
            }
            (v, i)
        },
        Some((e, j)) => {
            let c = scan_blank(s, len, j);
            let ghost ev = e@;
            let bx = Box::new(e);
            let ghost gbx = bx;
            if c < len && s.get_char(c) == ',' {
                let (mut rest, p) = parse_arg_items(s, len, c + 1);
                let ghost rest0 = rest@;
                if rest.len() == 0 {
                    proof {
                        lemma_view_boxes_len(rest0);
                    }
                    let mut v: Vec<Box<Expression>> = Vec::new();
                    v.push(bx);
                    proof {
                        lemma_view_boxes_prepend(gbx, Seq::empty());
                        assert(v@ =~= seq![gbx].add(Seq::empty()));
                        assert(view_expr_boxes(Seq::<Box<Expression>>::empty())
                            =~= Seq::<ExprView>::empty());
                        assert(view_expr_boxes(v@) =~= seq![ev]);
                    }
                    (v, c)
                } else {
                    proof {
                        lemma_view_boxes_len(rest0);
                    }
                    rest.insert(0, bx);
                    proof {
                        assert(rest@ =~= seq![gbx].add(rest0));
                        lemma_view_boxes_prepend(gbx, rest0);
                    }
                    (rest, p)
                }
            } else {
                let mut v: Vec<Box<Expression>> = Vec::new();
                v.push(bx);
                proof {
                    lemma_view_boxes_prepend(gbx, Seq::empty());
                    assert(v@ =~= seq![gbx].add(Seq::empty()));
                    assert(view_expr_boxes(Seq::<Box<Expression>>::empty())
                        =~= Seq::<ExprView>::empty());
                    assert(view_expr_boxes(v@) =~= seq![ev]);
                }
                (v, c)
            }
        },
    }
}

fn parse_unary(s: &str, len: usize, i: usize) -> (r: Option<(Expression, usize)>)
    requires
        len == s@.len(),
        i <= len,
    ensures
        match r {
            Some((e, j)) => spec_unary(s@, i as int) == Some((e@, j as int)) && i < j <= len,
            None => spec_unary(s@, i as int) is None,
        },
    decreases len - i, 50int,
{
    if i < len && (s.get_char(i) == '&' || s.get_char(i) == '*' || s.get_char(i) == '-') {
        let c = s.get_char(i);
        let j = scan_blank(s, len, i + 1);
        match parse_unary(s, len, j) {
            Some((e, p)) => {
                let op = if c == '&' {
                    UnOp::AddressOf
                } else if c == '*' {
                    UnOp::Dereference
                } else {
                    UnOp::Negate
                };
                Some((Expression::UnaryExpression(op, Box::new(e)), p))
            },
            None => parse_allocation(s, len, i),
        }
    } else {
        parse_allocation(s, len, i)
    }
}

fn parse_allocation(s: &str, len: usize, i: usize) -> (r: Option<(Expression, usize)>)
    requires
        len == s@.len(),
        i <= len,
    ensures
        match r {
            Some((e, j)) => spec_allocation(s@, i as int) == Some((e@, j as int)) && i < j <= len,
            None => spec_allocation(s@, i as int) is None,
        },
    decreases len - i, 40int,
{
    if at_kw_alloc(s, len, i) && i + 5 < len && ws_char(s.get_char(i + 5)) {
        let j = scan_ws(s, len, i + 5);
        match parse_allocation(s, len, j) {
            Some((e, p)) => Some((Expression::Alloc(Box::new(e)), p)),
            None => parse_projection(s, len, i),
        }
    } else {
        parse_projection(s, len, i)
    }
}

#[verifier::rlimit(100)]
#[verifier::spinoff_prover]
fn parse_projection(s: &str, len: usize, i: usize) -> (r: Option<(Expression, usize)>)
    requires
        len == s@.len(),
        i <= len,
    ensures
        match r {
            Some((e, j)) => spec_projection(s@, i as int) == Some((e@, j as int)) && i < j <= len,
            None => spec_projection(s@, i as int) is None,
        },
    decreases len - i, 30int,
{
    match parse_atom(s, len, i) {
        None => None,
        Some((e, j)) => match parse_proj_path(s, len, j) {
            Some((path, p)) => Some((Expression::Projection(Box::new(e), path), p)),
            None => Some((e, j)),
        },
    }
}

fn parse_proj_path(s: &str, len: usize, i: usize) -> (r: Option<(Vec<Ident>, usize)>)
    requires
        len == s@.len(),
        i <= len,
    ensures
        match r {
            Some((v, j)) => spec_proj_path(s@, i as int) == Some((view_idents(v@), j as int)) && i
                < j <= len,
            None => spec_proj_path(s@, i as int) is None,
        },
    decreases len - i,
{
    if i < len && s.get_char(i) == '.' {
        match parse_raw_ident(s, len, i + 1) {
            Some((id, j)) => {
                let idv = Ident(id);
                let ghost gid = idv;
                match parse_proj_path(s, len, j) {
                    Some((mut rest, p)) => {
                        let ghost rest0 = rest@;
                        rest.insert(0, idv);
                        proof {
                            assert(rest@ =~= seq![gid].add(rest0));
                            assert(view_idents(rest@) =~= seq![gid.0@].add(view_idents(rest0)));
                        }
                        Some((rest, p))
                    },
                    None => {
                        let mut v: Vec<Ident> = Vec::new();
                        v.push(idv);
                        proof {
                            assert(view_idents(v@) =~= seq![gid.0@]);
                        }
                        Some((v, j))
                    },
                }
            },
            None => None,
        }
    } else {
        None
    }
}

fn parse_atom(s: &str, len: usize, i: usize) -> (r: Option<(Expression, usize)>)
    requires
        len == s@.len(),
        i <= len,
    ensures
        match r {
            Some((e, j)) => spec_atom(s@, i as int) == Some((e@, j as int)) && i < j <= len,
            None => spec_atom(s@, i as int) is None,
        },
    decreases len - i, 20int,
{
    match parse_number(s, len, i) {
        Some(r) => Some(r),
        None => match parse_raw_ident(s, len, i) {
            Some((id, j)) => Some((Expression::IdentReference(Ident(id)), j)),
            None => match parse_record(s, len, i) {
                Some(r) => Some(r),
                None => {
                    if i < len && s.get_char(i) == '(' {
                        match parse_additive(s, len, i + 1) {
                            Some((e, j)) => if j < len && s.get_char(j) == ')' {
                                Some((e, j + 1))
                            } else {
                                None
                            },
                            None => None,
                        }
                    } else {
                        None
                    }
                },
            },
        },
    }
}

fn parse_record_fields(s: &str, len: usize, i: usize) -> (r: Option<
    (Vec<(Ident, Expression)>, usize),
>)
    requires
        len == s@.len(),
        i <= len,
    ensures
        match r {
            Some((v, j)) => spec_record_fields(s@, i as int) == Some((view_fields(v@), j as int))
                && i <= j <= len,
            None => spec_record_fields(s@, i as int) is None,
        },
    decreases len - i, 120int,
{
    let a = scan_blank(s, len, i);
    match parse_raw_ident(s, len, a) {
        None => None,
        Some((id, j)) => {
            let b = scan_blank(s, len, j);
            if b < len && s.get_char(b) == ':' {
                let c = scan_blank(s, len, b + 1);
                match parse_additive(s, len, c) {
                    None => None,
                    Some((e, p)) => {
                        let q = scan_blank(s, len, p);
                        let fld = (Ident(id), e);
                        let ghost gfld = fld;
                        if q < len && s.get_char(q) == ',' {
                            match parse_record_fields(s, len, q + 1) {
                                Some((mut rest, rr)) => {
                                    let ghost rest0 = rest@;
                                    rest.insert(0, fld);
                                    proof {
                                        assert(rest@ =~= seq![gfld].add(rest0));
                                        lemma_view_fields_prepend(gfld, rest0);
                                    }
                                    Some((rest, rr))
                                },
                                None => {
                                    let mut v: Vec<(Ident, Expression)> = Vec::new();
                                    v.push(fld);
                                    proof {
                                        lemma_view_fields_prepend(gfld, Seq::empty());
                                        assert(v@ =~= seq![gfld].add(Seq::empty()));
                                        assert(view_fields(Seq::<(Ident, Expression)>::empty())
                                            =~= Seq::<(Seq<char>, ExprView)>::empty());
                                        assert(view_fields(v@) =~= seq![(gfld.0.0@, view_expr(gfld.1))]);
                                    }
                                    Some((v, q))
                                },
                            }
                        } else {
                            let mut v: Vec<(Ident, Expression)> = Vec::new();
                            v.push(fld);
                            proof {
                                lemma_view_fields_prepend(gfld, Seq::empty());
                                assert(v@ =~= seq![gfld].add(Seq::empty()));
                                assert(view_fields(Seq::<(Ident, Expression)>::empty())
                                    =~= Seq::<(Seq<char>, ExprView)>::empty());
                                assert(view_fields(v@) =~= seq![(gfld.0.0@, view_expr(gfld.1))]);
                            }
                            Some((v, q))
                        }
                    },
                }
            } else {
                None
            }
        },
    }
}

proof fn lemma_record_closed(s: Seq<char>, i: int, fv: Seq<(Seq<char>, ExprView)>, j: int)
    requires
        0 <= i < s.len(),
        s[i] == '{',
        spec_record_fields(s, i + 1) == Some((fv, j)),
    ensures
        0 <= j < s.len() && s[j] == '}' ==> spec_record(s, i) == Some(
            (ExprView::Record(fv), j + 1),
        ),
        !(0 <= j < s.len() && s[j] == '}') ==> spec_record(s, i) is None,
{
}

proof fn lemma_view_record(v: Vec<(Ident, Expression)>)
    ensures
        view_expr(Expression::Record(v)) == ExprView::Record(view_fields(v@)),
{
}

fn finish_record_nonempty(s: &str, len: usize, i: usize, fields: Vec<(Ident, Expression)>, j: usize) -> (r:
    Option<(Expression, usize)>)
    requires
        len == s@.len(),
        i < len,
        s@[i as int] == '{',
        i < j <= len,
        spec_record_fields(s@, i + 1) == Some((view_fields(fields@), j as int)),
    ensures
        match r {
            Some((e, p)) => spec_record(s@, i as int) == Some((e@, p as int)) && i < p <= len,
            None => spec_record(s@, i as int) is None,
        },
{
    let ghost gf = view_fields(fields@);
    let ghost gfields = fields;
    proof {
        lemma_record_closed(s@, i as int, gf, j as int);
        lemma_view_record(gfields);
    }
    if j < len && s.get_char(j) == '}' {
        let e = Expression::Record(fields);
        Some((e, j + 1))
    } else {
        None
    }
}

fn finish_record_empty(s: &str, len: usize, i: usize) -> (r: Option<(Expression, usize)>)
    requires
        len == s@.len(),
        i < len,
        s@[i as int] == '{',
        spec_record_fields(s@, i + 1) is None,
    ensures
        match r {
            Some((e, p)) => spec_record(s@, i as int) == Some((e@, p as int)) && i < p <= len,
            None => spec_record(s@, i as int) is None,
        },
{
    if i + 1 < len && s.get_char(i + 1) == '}' {
        let v: Vec<(Ident, Expression)> = Vec::new();
        let e = Expression::Record(v);
        proof {
            assert(view_fields(Seq::<(Ident, Expression)>::empty()) =~= Seq::<
                (Seq<char>, ExprView),
            >::empty());
            assert(e@ == ExprView::Record(Seq::<(Seq<char>, ExprView)>::empty()));
        }
        Some((e, i + 2))
    } else {
        None
    }
}

fn parse_record(s: &str, len: usize, i: usize) -> (r: Option<(Expression, usize)>)
    requires
        len == s@.len(),
        i <= len,
    ensures
        match r {
            Some((e, j)) => spec_record(s@, i as int) == Some((e@, j as int)) && i < j <= len,
            None => spec_record(s@, i as int) is None,
        },
    decreases len - i, 10int,
{
    if i < len && s.get_char(i) == '{' {
        match parse_record_fields(s, len, i + 1) {
            Some((fields, j)) => finish_record_nonempty(s, len, i, fields, j),
            None => finish_record_empty(s, len, i),
        }
    } else {
        None
    }
}

// ---------------------------------------------------------------------------
// Executable statement rules
// ---------------------------------------------------------------------------

fn parse_var_rest(s: &str, len: usize, i: usize) -> (r: (Vec<Ident>, usize))
    requires
        len == s@.len(),
        i <= len,
    ensures
        spec_var_rest(s@, i as int) == (view_idents(r.0@), r.1 as int),
        i <= r.1 <= len,
    decreases len - i,
{
    if i < len && s.get_char(i) == ',' {
        let a = scan_blank(s, len, i + 1);
        match parse_raw_ident(s, len, a) {
            Some((id, j)) => {
                let idv = Ident(id);
                let ghost gid = idv;
                let (mut rest, p) = parse_var_rest(s, len, j);
                let ghost rest0 = rest@;
                rest.insert(0, idv);
                proof {
                    assert(rest@ =~= seq![gid].add(rest0));
                    assert(view_idents(rest@) =~= seq![gid.0@].add(view_idents(rest0)));
                }
                (rest, p)
            },
            None => {
                let v: Vec<Ident> = Vec::new();
                proof {
                    assert(view_idents(v@) =~= Seq::<Seq<char>>::empty());
                }
                (v, i)
            },
        }
    } else {
        let v: Vec<Ident> = Vec::new();
        proof {
            assert(view_idents(v@) =~= Seq::<Seq<char>>::empty());
        }
        (v, i)
    }
}

fn parse_sc_var(s: &str, len: usize, i: usize) -> (r: Option<(Statement, usize)>)
    requires
        len == s@.len(),
        i <= len,
    ensures
        match r {
            Some((st, j)) => spec_sc_var(s@, i as int) == Some((st@, j as int)) && i < j <= len,
            None => spec_sc_var(s@, i as int) is None,
        },
{
    if at_kw_var(s, len, i) && i + 3 < len && ws_char(s.get_char(i + 3)) {
        let j = scan_ws(s, len, i + 3);
        match parse_raw_ident(s, len, j) {
            Some((first, k)) => {
                let firstv = Ident(first);
                let ghost gfirst = firstv;
                let (rest, p) = parse_var_rest(s, len, k);
                let ghost rest0 = rest@;
                let mut ids: Vec<Ident> = Vec::new();
                ids.push(firstv);
                let mut rest = rest;
                ids.append(&mut rest);
                proof {
                    assert(ids@ =~= seq![gfirst].add(rest0));
                    assert(view_idents(ids@) =~= seq![gfirst.0@].add(view_idents(rest0)));
                }
                Some((Statement::VarDecl(ids), p))
            },
            None => None,
        }
    } else {
        None
    }
}

fn parse_sc_return(s: &str, len: usize, i: usize) -> (r: (Statement, usize))
    requires
        len == s@.len(),
        i <= len,
        kw_return(s@, i as int),
    ensures
        spec_sc_return(s@, i as int) == (r.0@, r.1 as int),
        i < r.1 <= len,
    decreases len - i, 140int,
{
    if i + 6 < len && ws_char(s.get_char(i + 6)) {
        let j = scan_ws(s, len, i + 6);
        match parse_additive(s, len, j) {
            Some((e, p)) => (Statement::Return(Some(e)), p),
            None => (Statement::Return(None), i + 6),
        }
    } else {
        (Statement::Return(None), i + 6)
    }
}

fn parse_sc_output(s: &str, len: usize, i: usize) -> (r: Option<(Statement, usize)>)
    requires
        len == s@.len(),
        i <= len,
    ensures
        match r {
            Some((st, j)) => spec_sc_output(s@, i as int) == Some((st@, j as int)) && i < j <= len,
            None => spec_sc_output(s@, i as int) is None,
        },
    decreases len - i, 140int,
{
    if at_kw_output(s, len, i) && i + 6 < len && ws_char(s.get_char(i + 6)) {
        let j = scan_ws(s, len, i + 6);
        match parse_additive(s, len, j) {
            Some((e, p)) => Some((Statement::Output(e), p)),
            None => None,
        }
    } else {
        None
    }
}

fn parse_sc_error(s: &str, len: usize, i: usize) -> (r: Option<(Statement, usize)>)
    requires
        len == s@.len(),
        i <= len,
    ensures
        match r {
            Some((st, j)) => spec_sc_error(s@, i as int) == Some((st@, j as int)) && i < j <= len,
            None => spec_sc_error(s@, i as int) is None,
        },
    decreases len - i, 140int,
{
    if at_kw_error(s, len, i) && i + 5 < len && ws_char(s.get_char(i + 5)) {
        let j = scan_ws(s, len, i + 5);
        match parse_additive(s, len, j) {
            Some((e, p)) => Some((Statement::Error(e), p)),
            None => None,
        }
    } else {
        None
    }
}

#[verifier::rlimit(50)]
fn parse_sc_expr(s: &str, len: usize, i: usize) -> (r: Option<(Statement, usize)>)
    requires
        len == s@.len(),
        i <= len,
    ensures
        match r {
            Some((st, j)) => spec_sc_expr(s@, i as int) == Some((st@, j as int)) && i < j <= len,
            None => spec_sc_expr(s@, i as int) is None,
        },
    decreases len - i, 140int,
{
    match parse_additive(s, len, i) {
        None => None,
        Some((l, j)) => {
            let k = scan_blank(s, len, j);
            if k < len && s.get_char(k) == '=' {
                let m = scan_blank(s, len, k + 1);
                match parse_additive(s, len, m) {
                    Some((rgt, p)) => Some((Statement::Assign(l, rgt), p)),
                    None => Some((Statement::ExpressionStatement(l), j)),
                }
            } else {
                Some((Statement::ExpressionStatement(l), j))
            }
        },
    }
}

fn parse_statement_contents(s: &str, len: usize, i: usize) -> (r: Option<(Statement, usize)>)
    requires
        len == s@.len(),
        i <= len,
    ensures
        match r {
            Some((st, j)) => spec_statement_contents(s@, i as int) == Some((st@, j as int)) && i
                < j <= len,
            None => spec_statement_contents(s@, i as int) is None,
        },
    decreases len - i, 150int,
{
    match parse_sc_var(s, len, i) {
        Some(r) => Some(r),
        None => if at_kw_break(s, len, i) {
            Some((Statement::Break, i + 5))
        } else if at_kw_return(s, len, i) {
            let (st, j) = parse_sc_return(s, len, i);
            Some((st, j))
        } else {
            match parse_sc_output(s, len, i) {
                Some(r) => Some(r),
                None => match parse_sc_error(s, len, i) {
                    Some(r) => Some(r),
                    None => parse_sc_expr(s, len, i),
                },
            }
        },
    }
}

fn parse_stmt_simple(s: &str, len: usize, i: usize, a: usize) -> (r: Option<(Statement, usize)>)
    requires
        len == s@.len(),
        i <= a <= len,
        a as int == spec_blank(s@, i as int),
    ensures
        match r {
            Some((st, j)) => spec_stmt_simple(s@, i as int, a as int) == Some((st@, j as int)) && i
                < j <= len,
            None => spec_stmt_simple(s@, i as int, a as int) is None,
        },
    decreases len - i, 160int,
{
    match parse_statement_contents(s, len, a) {
        Some((st, j)) => {
            let k = scan_blank(s, len, j);
            if k < len && s.get_char(k) == ';' {
                let p = scan_blank(s, len, k + 1);
                Some((st, p))
            } else {
                None
            }
        },
        None => None,
    }
}

#[verifier::rlimit(50)]
fn parse_stmt_while(s: &str, len: usize, i: usize, a: usize) -> (r: Option<(Statement, usize)>)
    requires
        len == s@.len(),
        i <= a <= len,
        a as int == spec_blank(s@, i as int),
    ensures
        match r {
            Some((st, j)) => spec_stmt_while(s@, i as int, a as int) == Some((st@, j as int)) && i
                < j <= len,
            None => spec_stmt_while(s@, i as int, a as int) is None,
        },
    decreases len - i, 160int,
{
    if at_kw_while(s, len, a) {
        let b = scan_blank(s, len, a + 5);
        if b < len && s.get_char(b) == '(' {
            let c = scan_blank(s, len, b + 1);
            match parse_additive(s, len, c) {
                None => None,
                Some((cond, d)) => {
                    let e = scan_blank(s, len, d);
                    if e < len && s.get_char(e) == ')' {
                        let f = scan_blank(s, len, e + 1);
                        match parse_branch(s, len, f) {
                            Some((body, g)) => Some(
                                (Statement::While { cond, then: Some(body) }, g),
                            ),
                            None => Some((Statement::While { cond, then: None }, f)),
                        }
                    } else {
                        None
                    }
                },
            }
        } else {
            None
        }
    } else {
        None
    }
}

#[verifier::rlimit(100)]
fn parse_stmt_if(s: &str, len: usize, i: usize, a: usize) -> (r: Option<(Statement, usize)>)
    requires
        len == s@.len(),
        i <= a <= len,
        a as int == spec_blank(s@, i as int),
    ensures
        match r {
            Some((st, j)) => spec_stmt_if(s@, i as int, a as int) == Some((st@, j as int)) && i < j
                <= len,
            None => spec_stmt_if(s@, i as int, a as int) is None,
        },
    decreases len - i, 160int,
{
    if at_kw_if(s, len, a) {
        let b = scan_blank(s, len, a + 2);
        if b < len && s.get_char(b) == '(' {
            let c = scan_blank(s, len, b + 1);
            match parse_additive(s, len, c) {
                None => None,
                Some((cond, d)) => {
                    let e = scan_blank(s, len, d);
                    if e < len && s.get_char(e) == ')' {
                        let f = scan_blank(s, len, e + 1);
                        let (then_o, pt) = match parse_branch(s, len, f) {
                            Some((b2, g)) => (Some(b2), g),
                            None => (None, f),
                        };
                        let h = scan_blank(s, len, pt);
                        if at_kw_else(s, len, h) {
                            let m = scan_blank(s, len, h + 4);
                            match parse_branch(s, len, m) {
                                Some((eb, q)) => Some(
                                    (
                                        Statement::If {
                                            cond,
                                            then: then_o,
                                            otherwise: Some(eb),
                                        },
                                        q,
                                    ),
                                ),
                                None => Some(
                                    (Statement::If { cond, then: then_o, otherwise: None }, pt),
                                ),
                            }
                        } else {
                            Some((Statement::If { cond, then: then_o, otherwise: None }, pt))
                        }
                    } else {
                        None
                    }
                },
            }
        } else {
            None
        }
    } else {
        None
    }
}

fn parse_statement(s: &str, len: usize, i: usize) -> (r: Option<(Statement, usize)>)
    requires
        len == s@.len(),
        i <= len,
    ensures
        match r {
            Some((st, j)) => spec_statement(s@, i as int) == Some((st@, j as int)) && i < j <= len,
            None => spec_statement(s@, i as int) is None,
        },
    decreases len - i, 170int,
{
    let a = scan_blank(s, len, i);
    match parse_stmt_simple(s, len, i, a) {
        Some(r) => Some(r),
        None => match parse_stmt_while(s, len, i, a) {
            Some(r) => Some(r),
            None => match parse_stmt_if(s, len, i, a) {
                Some(r) => Some(r),
                None => {
                    if i < len && s.get_char(i) == '{' {
                        match parse_statement_list(s, len, i + 1) {
                            Some((list, j)) => if j < len && s.get_char(j) == '}' {
                                Some((Statement::Block(list), j + 1))
                            } else {
                                None
                            },
                            None => None,
                        }
                    } else {
                        None
                    }
                },
            },
        },
    }
}

fn parse_branch_braced(s: &str, len: usize, i: usize) -> (r: Option<(Vec<Statement>, usize)>)
    requires
        len == s@.len(),
        i <= len,
    ensures
        match r {
            Some((v, j)) => spec_branch_braced(s@, i as int) == Some(
                (view_stmts(v@), j as int),
            ) && i < j <= len,
            None => spec_branch_braced(s@, i as int) is None,
        },
    decreases len - i, 175int,
{
    if i < len && s.get_char(i) == '{' {
        match parse_statement_list(s, len, i + 1) {
            Some((list, j)) => {
                if j < len && s.get_char(j) == '}' {
                    Some((list, j + 1))
                } else {
                    None
                }
            },
            None => {
                let a = scan_blank(s, len, i + 1);
                if a < len && s.get_char(a) == '}' {
                    let v: Vec<Statement> = Vec::new();
                    proof {
                        assert(view_stmts(v@) =~= Seq::<StmtView>::empty());
                    }
                    Some((v, a + 1))
                } else {
                    None
                }
            },
        }
    } else {
        None
    }
}

fn parse_branch(s: &str, len: usize, i: usize) -> (r: Option<(Vec<Statement>, usize)>)
    requires
        len == s@.len(),
        i <= len,
    ensures
        match r {
            Some((v, j)) => spec_branch(s@, i as int) == Some((view_stmts(v@), j as int)) && i < j
                <= len,
            None => spec_branch(s@, i as int) is None,
        },
    decreases len - i, 180int,
{
    match parse_branch_braced(s, len, i) {
        Some(r) => Some(r),
        None => parse_branch_single(s, len, i),
    }
}

/// The single-statement form of a branch.
fn parse_branch_single(s: &str, len: usize, i: usize) -> (r: Option<(Vec<Statement>, usize)>)
    requires
        len == s@.len(),
        i <= len,
    ensures
        match r {
            Some((v, j)) => spec_statement(s@, i as int) == Some(
                (view_stmts(v@)[0], j as int),
            ) && view_stmts(v@).len() == 1 && i < j <= len,
            None => spec_statement(s@, i as int) is None,
        },
    decreases len - i, 175int,
{
    match parse_statement(s, len, i) {
        Some((st, j)) => {
            let ghost gstmt = st;
            let mut v: Vec<Statement> = Vec::new();
            v.push(st);
            proof {
                lemma_view_stmts_prepend(gstmt, Seq::empty());
                assert(v@ =~= seq![gstmt].add(Seq::empty()));
                assert(view_stmts(Seq::<Statement>::empty()) =~= Seq::<StmtView>::empty());
                assert(view_stmts(v@) =~= seq![view_stmt(gstmt)]);
            }
            Some((v, j))
        },
        None => None,
    }
}

fn parse_statement_list(s: &str, len: usize, i: usize) -> (r: Option<(Vec<Statement>, usize)>)
    requires
        len == s@.len(),
        i <= len,
    ensures
        match r {
            Some((v, j)) => spec_statement_list(s@, i as int) == Some(
                (view_stmts(v@), j as int),
            ) && i < j <= len,
            None => spec_statement_list(s@, i as int) is None,
        },
    decreases len - i, 190int,
{
    let a = scan_blank(s, len, i);
    match parse_statement(s, len, a) {
        None => None,
        Some((st, j)) => {
            let ghost gstmt = st;
            let b = scan_blank(s, len, j);
            match parse_statement_list(s, len, b) {
                Some((mut rest, p)) => {
                    let ghost rest0 = rest@;
                    rest.insert(0, st);
                    proof {
                        assert(rest@ =~= seq![gstmt].add(rest0));
                        lemma_view_stmts_prepend(gstmt, rest0);
                    }
                    Some((rest, p))
                },
                None => {
                    let mut v: Vec<Statement> = Vec::new();
                    v.push(st);
                    proof {
                        lemma_view_stmts_prepend(gstmt, Seq::empty());
                        assert(v@ =~= seq![gstmt].add(Seq::empty()));
                        assert(view_stmts(Seq::<Statement>::empty()) =~= Seq::<StmtView>::empty());
                        assert(view_stmts(v@) =~= seq![view_stmt(gstmt)]);
                    }
                    Some((v, b))
                },
            }
        },
    }
}

// ---------------------------------------------------------------------------
// Executable function and program rules
// ---------------------------------------------------------------------------

fn parse_params(s: &str, len: usize, i: usize) -> (r: (Vec<Ident>, usize))
    requires
        len == s@.len(),
        i <= len,
    ensures
        spec_params(s@, i as int) == (view_idents(r.0@), r.1 as int),
        r.0@.len() == view_idents(r.0@).len(),
        i <= r.1 <= len,
    decreases len - i,
{
    let a = scan_blank(s, len, i);
    match parse_raw_ident(s, len, a) {
        None => {
            let v: Vec<Ident> = Vec::new();
            proof {
                assert(view_idents(v@) =~= Seq::<Seq<char>>::empty());
            }
            (v, i)
        },
        Some((id, j)) => {
            let idv = Ident(id);
            let ghost gid = idv;
            let b = scan_blank(s, len, j);
            if b < len && s.get_char(b) == ',' {
                let (mut rest, p) = parse_params(s, len, b + 1);
                if rest.len() == 0 {
                    let mut v: Vec<Ident> = Vec::new();
                    v.push(idv);
                    proof {
                        assert(view_idents(v@) =~= seq![gid.0@]);
                    }
                    (v, b)
                } else {
                    let ghost rest0 = rest@;
                    rest.insert(0, idv);
                    proof {
                        assert(rest@ =~= seq![gid].add(rest0));
                        assert(view_idents(rest@) =~= seq![gid.0@].add(view_idents(rest0)));
                    }
                    (rest, p)
                }
            } else {
                let mut v: Vec<Ident> = Vec::new();
                v.push(idv);
                proof {
                    assert(view_idents(v@) =~= seq![gid.0@]);
                }
                (v, b)
            }
        },
    }
}

#[verifier::rlimit(100)]
#[verifier::spinoff_prover]
fn parse_function(s: &str, len: usize, i: usize) -> (r: Option<(Function, usize)>)
    requires
        len == s@.len(),
        i <= len,
    ensures
        match r {
            Some((f, j)) => spec_function(s@, i as int) == Some((f@, j as int)) && i < j <= len,
            None => spec_function(s@, i as int) is None,
        },
    decreases len - i, 200int,
{
    match parse_raw_ident(s, len, i) {
        None => None,
        Some((name, j)) => {
            let a = scan_blank(s, len, j);
            if a < len && s.get_char(a) == '(' {
                let (params, b) = parse_params(s, len, a + 1);
                if b < len && s.get_char(b) == ')' {
                    let c = scan_blank(s, len, b + 1);
                    if c < len && s.get_char(c) == '{' {
                        match parse_statement_list(s, len, c + 1) {
                            Some((body, d)) => {
                                if d < len && s.get_char(d) == '}' {
                                    Some((Function { name: Ident(name), params, body }, d + 1))
                                } else {
                                    None
                                }
                            },
                            None => {
                                let e = scan_blank(s, len, c + 1);
                                if e < len && s.get_char(e) == '}' {
                                    let body: Vec<Statement> = Vec::new();
                                    proof {
                                        assert(view_stmts(body@) =~= Seq::<StmtView>::empty());
                                    }
                                    Some((Function { name: Ident(name), params, body }, e + 1))
                                } else {
                                    None
                                }
                            },
                        }
                    } else {
                        None
                    }
                } else {
                    None
                }
            } else {
                None
            }
        },
    }
}

pub(crate) fn parse_functions(s: &str, len: usize, i: usize) -> (r: (Vec<Function>, usize))
    requires
        len == s@.len(),
        i <= len,
    ensures
        spec_functions(s@, i as int) == (r.0@.map_values(|f: Function| f@), r.1 as int),
        i <= r.1 <= len,
    decreases len - i, 210int,
{
    let a = scan_blank(s, len, i);
    match parse_function(s, len, a) {
        None => {
            let v: Vec<Function> = Vec::new();
            proof {
                assert(v@.map_values(|f: Function| f@) =~= Seq::<FunctionView>::empty());
            }
            (v, a)
        },
        Some((f, j)) => {
            let ghost gf = f;
            let b = scan_blank(s, len, j);
            let (mut rest, p) = parse_functions(s, len, b);
            let ghost rest0 = rest@;
            rest.insert(0, f);
            proof {
                assert(rest@ =~= seq![gf].add(rest0));
                assert(rest@.map_values(|f2: Function| f2@) =~= seq![gf@].add(
                    rest0.map_values(|f2: Function| f2@),
                ));
            }
            (rest, p)
        },
    }
}

// ---------------------------------------------------------------------------
// Entry points for the individual rules: each parses the whole input with
// one rule. On failure the error points at where parsing stopped: the end of
// the parsed prefix, or the start of the input when nothing parsed.
// ---------------------------------------------------------------------------

/// A whole program: one or more function definitions.
pub fn program(s: &str) -> (r: Result<Program, ParseError>)
    ensures
        match r {
            Ok(p) => spec_program(s@) == Ok::<ProgramView, int>(p@),
            Err(e) => {
                &&& spec_program(s@) == Err::<ProgramView, int>(e.offset as int)
                &&& e.offset <= s@.len()
                &&& e.line as int == cap_usize(spec_line(s@, e.offset as int))
                &&& e.col as int == cap_usize(spec_col(s@, e.offset as int))
            },
        },
{
    let len = s.unicode_len();
    let (funcs, p) = parse_functions(s, len, 0);
    if funcs.len() > 0 && p == len {
        Ok(Program { functions: funcs })
    } else {
        let (line, col) = line_col_at(s, len, p);
        Err(ParseError { offset: p, line, col })
    }
}

/// A whole input parsed as one expression.
pub fn expression(s: &str) -> (r: Result<Expression, ParseError>)
    ensures
        match r {
            Ok(e) => spec_expression_full(s@) == Some(e@),
            Err(err) => spec_expression_full(s@) is None && err.offset as int == (
            match spec_additive(s@, 0) {
                Some((_, j)) => j,
                None => 0int,
            }) && err.offset <= s@.len() && err.line as int == cap_usize(
                spec_line(s@, err.offset as int),
            ) && err.col as int == cap_usize(spec_col(s@, err.offset as int)),
        },
{
    let len = s.unicode_len();
    match parse_additive(s, len, 0) {
        Some((e, j)) => {
            if j == len {
                Ok(e)
            } else {
                let (line, col) = line_col_at(s, len, j);
                Err(ParseError { offset: j, line, col })
            }
        },
        None => {
            let (line, col) = line_col_at(s, len, 0);
            Err(ParseError { offset: 0, line, col })
        },
    }
}

/// A whole input parsed as one statement.
pub fn statement(s: &str) -> (r: Result<Statement, ParseError>)
    ensures
        match r {
            Ok(st) => spec_statement_full(s@) == Some(st@),
            Err(err) => spec_statement_full(s@) is None && err.offset as int == (
            match spec_statement(s@, 0) {
                Some((_, j)) => j,
                None => 0int,
            }) && err.offset <= s@.len() && err.line as int == cap_usize(
                spec_line(s@, err.offset as int),
            ) && err.col as int == cap_usize(spec_col(s@, err.offset as int)),
        },
{
    let len = s.unicode_len();
    match parse_statement(s, len, 0) {
        Some((st, j)) => {
            if j == len {
                Ok(st)
            } else {
                let (line, col) = line_col_at(s, len, j);
                Err(ParseError { offset: j, line, col })
            }
        },
        None => {
            let (line, col) = line_col_at(s, len, 0);
            Err(ParseError { offset: 0, line, col })
        },
    }
}

/// A whole input parsed as one function definition.
pub fn function(s: &str) -> (r: Result<Function, ParseError>)
    ensures
        match r {
            Ok(f) => spec_function_full(s@) == Some(f@),
            Err(err) => spec_function_full(s@) is None && err.offset as int == (
            match spec_function(s@, 0) {
                Some((_, j)) => j,
                None => 0int,
            }) && err.offset <= s@.len() && err.line as int == cap_usize(
                spec_line(s@, err.offset as int),
            ) && err.col as int == cap_usize(spec_col(s@, err.offset as int)),
        },
{
    let len = s.unicode_len();
    match parse_function(s, len, 0) {
        Some((f, j)) => {
            if j == len {
                Ok(f)
            } else {
                let (line, col) = line_col_at(s, len, j);
                Err(ParseError { offset: j, line, col })
            }
        },
        None => {
            let (line, col) = line_col_at(s, len, 0);
            Err(ParseError { offset: 0, line, col })
        },
    }
}

/// A whole input parsed as one identifier.
pub fn ident(s: &str) -> (r: Result<Ident, ParseError>)
    ensures
        match r {
            Ok(id) => spec_ident_full(s@) == Some(id@),
            Err(err) => spec_ident_full(s@) is None && err.offset as int == (
            match spec_ident(s@, 0) {
                Some((_, j)) => j,
                None => 0int,
            }) && err.offset <= s@.len() && err.line as int == cap_usize(
                spec_line(s@, err.offset as int),
            ) && err.col as int == cap_usize(spec_col(s@, err.offset as int)),
        },
{
    let len = s.unicode_len();
    match parse_raw_ident(s, len, 0) {
        Some((id, j)) => {
            if j == len {
                Ok(Ident(id))
            } else {
                let (line, col) = line_col_at(s, len, j);
                Err(ParseError { offset: j, line, col })
            }
        },
        None => {
            let (line, col) = line_col_at(s, len, 0);
            Err(ParseError { offset: 0, line, col })
        },
    }
}

/// A whole input parsed as one comment.
pub fn comment(s: &str) -> (r: Result<(), ParseError>)
    ensures
        r is Ok <==> spec_comment_full(s@),
        r matches Err(err) ==> err.offset as int == (match spec_comment(s@, 0) {
            Some(j) => j,
            None => 0int,
        }) && err.offset <= s@.len(),
{
    let len = s.unicode_len();
    match scan_comment(s, len, 0) {
        Some(j) => {
            if j == len {
                Ok(())
            } else {
                let (line, col) = line_col_at(s, len, j);
                Err(ParseError { offset: j, line, col })
            }
        },
        None => {
            let (line, col) = line_col_at(s, len, 0);
            Err(ParseError { offset: 0, line, col })
        },
    }
}

} // verus!
