//! The parse entry point: whole programs in, a `Program` or a
//! position-tagged `ParseError` out.
use vstd::prelude::*;

pub mod grammar;

use crate::ast::{Program, ProgramView};
use vstd::string::StrSliceExecFns;

verus! {

/// A parse failure. `offset` is where parsing stopped, counted in characters
/// from the start of the input: the beginning of the first construct that
/// could not be parsed. `line` and `col` are 1-based and derived from
/// `offset`.
#[derive(Debug, PartialEq, Eq)]
pub struct ParseError {
    pub offset: usize,
    pub line: usize,
    pub col: usize,
}

/// 1-based line number of the character position `off`: one more than the
/// number of newlines before it.
pub open spec fn spec_line(s: Seq<char>, off: int) -> int
    decreases off,
{
    if off <= 0 {
        1
    } else {
        spec_line(s, off - 1) + (if s[off - 1] == '\n' {
            1int
        } else {
            0int
        })
    }
}

/// 1-based column of the character position `off`: the distance to the last
/// newline before it.
pub open spec fn spec_col(s: Seq<char>, off: int) -> int
    decreases off,
{
    if off <= 0 {
        1
    } else if s[off - 1] == '\n' {
        1
    } else {
        spec_col(s, off - 1) + 1
    }
}

/// Counters saturate at the largest representable value.
pub open spec fn cap_usize(n: int) -> int {
    if n > usize::MAX as int {
        usize::MAX as int
    } else {
        n
    }
}

pub(crate) fn line_col_at(s: &str, len: usize, off: usize) -> (lc: (usize, usize))
    requires
        len == s@.len(),
        off <= len,
    ensures
        lc.0 as int == cap_usize(spec_line(s@, off as int)),
        lc.1 as int == cap_usize(spec_col(s@, off as int)),
{
    let mut line: usize = 1;
    let mut col: usize = 1;
    let mut k: usize = 0;
    while k < off
        invariant
            k <= off <= len,
            len == s@.len(),
            line as int == cap_usize(spec_line(s@, k as int)),
            col as int == cap_usize(spec_col(s@, k as int)),
        decreases off - k,
    {
        if s.get_char(k) == '\n' {
            line = if line < usize::MAX {
                line + 1
            } else {
                line
            };
            col = 1;
        } else {
            col = if col < usize::MAX {
                col + 1
            } else {
                col
            };
        }
        k = k + 1;
    }
    (line, col)
}

/// Parse a whole program: one or more function definitions covering the
/// entire input. Exactly the inputs on which the program grammar succeeds
/// give `Ok`, and the returned tree is the one the grammar describes; every
/// other input gives a `ParseError` whose offset is where parsing stopped.
/// Parsing is deterministic: the grammar maps each input to at most one
/// program, so any two successful parses of equal inputs yield equal trees,
/// and repeated parses of the same input always agree.
pub proof fn lemma_parse_deterministic(
    s1: Seq<char>,
    s2: Seq<char>,
    p1: ProgramView,
    p2: ProgramView,
)
    requires
        s1 == s2,
        grammar::spec_program(s1) == Ok::<ProgramView, int>(p1),
        grammar::spec_program(s2) == Ok::<ProgramView, int>(p2),
    ensures
        p1 == p2,
{
}

/// An empty input is rejected: a program needs at least one function.
pub proof fn lemma_empty_input_rejected()
    ensures
        grammar::spec_program(Seq::<char>::empty()) is Err,
{
    let s = Seq::<char>::empty();
    assert(grammar::spec_blank(s, 0) == 0);
    assert(grammar::spec_ident(s, 0) is None);
    assert(grammar::spec_function(s, 0) is None);
    assert(grammar::spec_functions(s, 0) == (Seq::<crate::ast::FunctionView>::empty(), 0int));
}

pub fn parse(src: String) -> (r: Result<Program, ParseError>)
    ensures
        match r {
            Ok(p) => grammar::spec_program(src@) == Ok::<ProgramView, int>(p@),
            Err(e) => {
                &&& grammar::spec_program(src@) == Err::<ProgramView, int>(e.offset as int)
                &&& e.offset <= src@.len()
                &&& e.line as int == cap_usize(spec_line(src@, e.offset as int))
                &&& e.col as int == cap_usize(spec_col(src@, e.offset as int))
            },
        },
{
    grammar::program(src.as_str())
}

} // verus!
