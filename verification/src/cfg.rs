//! Control-flow graphs: one directed graph per function, built from the AST.
//!
//! A graph is an arena of nodes addressed by their indices, with the edges
//! held as `(source, target, label)` triples, so branches can be wired to
//! nodes created later without ownership cycles.
//!
//! The builder keeps a set of *pending* predecessors: the `(node, label)`
//! pairs that are waiting for the next node, which lets the two arms of an
//! `if` converge on whatever follows without a merge node. A `return` wires
//! itself to the exit node instead; statements after it are still built, as
//! a chain that feeds the exit but is not reached from the entry. A `break`
//! wires itself to wherever the `IfFalse` edge of the nearest enclosing
//! `while` leads; the builder assumes (and its callers check) that `break`
//! only occurs inside a loop.
use vstd::prelude::*;

use crate::ast::{
    lemma_view_stmts_index, view_expr, view_stmt, view_stmts, ExprView, Expression, Function,
    FunctionView, Program, ProgramView, Statement, StmtView,
};

verus! {

#[derive(Debug, PartialEq, Eq, Clone, Copy)]
pub enum EdgeCondition {
    Unconditional,
    IfTrue,
    IfFalse,
}

#[derive(Debug, PartialEq, Eq)]
pub enum CFGNode {
    Entry,
    Statement(Statement),
    CondBr(Expression),
    Exit,
}

/// One edge of a graph: from node `src` to node `dst`, with its label.
#[derive(Debug, PartialEq, Eq, Clone, Copy)]
pub struct CfgEdge {
    pub src: usize,
    pub dst: usize,
    pub cond: EdgeCondition,
}

/// A control-flow graph for one function.
#[derive(Debug, PartialEq, Eq)]
pub struct Cfg {
    pub nodes: Vec<CFGNode>,
    pub edges: Vec<CfgEdge>,
}

/// Mathematical model of a `CFGNode`.
pub enum CFGNodeView {
    Entry,
    Statement(StmtView),
    CondBr(ExprView),
    Exit,
}

/// Mathematical model of a `Cfg`: the node sequence and the edge triples.
#[verifier::ext_equal]
pub struct CfgView {
    pub nodes: Seq<CFGNodeView>,
    pub edges: Seq<(int, int, EdgeCondition)>,
}

impl View for CFGNode {
    type V = CFGNodeView;

    open spec fn view(&self) -> CFGNodeView {
        match *self {
            CFGNode::Entry => CFGNodeView::Entry,
            CFGNode::Statement(st) => CFGNodeView::Statement(view_stmt(st)),
            CFGNode::CondBr(e) => CFGNodeView::CondBr(view_expr(e)),
            CFGNode::Exit => CFGNodeView::Exit,
        }
    }
}

impl View for Cfg {
    type V = CfgView;

    open spec fn view(&self) -> CfgView {
        CfgView {
            nodes: self.nodes@.map_values(|n: CFGNode| n@),
            edges: self.edges@.map_values(|e: CfgEdge| (e.src as int, e.dst as int, e.cond)),
        }
    }
}

// ---------------------------------------------------------------------------
// Where `break` may stand
// ---------------------------------------------------------------------------

/// `break` may only occur inside the body of a `while`.
pub open spec fn stmt_wf(s: StmtView, in_loop: bool) -> bool
    decreases s,
{
    match s {
        StmtView::Break => in_loop,
        StmtView::If { cond: _, then, otherwise } => (match then {
            Some(l) => stmts_wf(l, in_loop),
            None => true,
        }) && (match otherwise {
            Some(l) => stmts_wf(l, in_loop),
            None => true,
        }),
        StmtView::While { cond: _, then } => match then {
            Some(l) => stmts_wf(l, true),
            None => true,
        },
        StmtView::Block(l) => stmts_wf(l, in_loop),
        _ => true,
    }
}

pub open spec fn stmts_wf(ss: Seq<StmtView>, in_loop: bool) -> bool
    decreases ss,
{
    if ss.len() == 0 {
        true
    } else {
        stmt_wf(ss[0], in_loop) && stmts_wf(ss.subrange(1, ss.len() as int), in_loop)
    }
}

pub open spec fn function_wf(f: FunctionView) -> bool {
    stmts_wf(f.body, false)
}

pub open spec fn program_wf(p: ProgramView) -> bool {
    forall|k: int| 0 <= k < p.functions.len() ==> function_wf(#[trigger] p.functions[k])
}

// ---------------------------------------------------------------------------
// Statement sizes, the measure for recursion over statement trees
// ---------------------------------------------------------------------------

pub open spec fn stmt_size(s: StmtView) -> nat
    decreases s,
{
    match s {
        StmtView::If { cond: _, then, otherwise } => 1 + (match then {
            Some(l) => stmts_size(l),
            None => 0,
        }) + (match otherwise {
            Some(l) => stmts_size(l),
            None => 0,
        }),
        StmtView::While { cond: _, then } => 1 + (match then {
            Some(l) => stmts_size(l),
            None => 0,
        }),
        StmtView::Block(l) => 1 + stmts_size(l),
        _ => 1,
    }
}

pub open spec fn stmts_size(ss: Seq<StmtView>) -> nat
    decreases ss,
{
    if ss.len() == 0 {
        0
    } else {
        stmt_size(ss[0]) + stmts_size(ss.subrange(1, ss.len() as int))
    }
}

pub proof fn lemma_stmts_size_element(ss: Seq<StmtView>, k: int)
    requires
        0 <= k < ss.len(),
    ensures
        stmt_size(ss[k]) <= stmts_size(ss),
    decreases ss.len(),
{
    if k == 0 {
    } else {
        lemma_stmts_size_element(ss.subrange(1, ss.len() as int), k - 1);
        assert(ss.subrange(1, ss.len() as int)[k - 1] == ss[k]);
    }
}

// ---------------------------------------------------------------------------
// The builder, as mathematics
// ---------------------------------------------------------------------------

/// The builder's state in the middle of a walk: the nodes and edges so far,
/// the predecessors waiting for the next node, the stack of `break`
/// collections for the enclosing loops, and the `return` nodes waiting for
/// the exit node.
#[verifier::ext_equal]
pub struct BuildView {
    pub nodes: Seq<CFGNodeView>,
    pub edges: Seq<(int, int, EdgeCondition)>,
    pub pending: Seq<(int, EdgeCondition)>,
    pub loops: Seq<Seq<(int, EdgeCondition)>>,
    pub rets: Seq<int>,
}

/// Append one node, wired from every pending predecessor; the new node
/// becomes the sole pending predecessor.
pub open spec fn attach(st: BuildView, n: CFGNodeView) -> BuildView {
    let idx = st.nodes.len() as int;
    BuildView {
        nodes: st.nodes.push(n),
        edges: st.edges.add(
            st.pending.map_values(|p: (int, EdgeCondition)| (p.0, idx, p.1)),
        ),
        pending: seq![(idx, EdgeCondition::Unconditional)],
        loops: st.loops,
        rets: st.rets,
    }
}

/// The effect of one statement on the builder state.
pub open spec fn build_stmt(st: BuildView, s: StmtView) -> BuildView
    decreases stmt_size(s), 0int,
{
    match s {
        StmtView::Break => {
            let st1 = attach(st, CFGNodeView::Statement(s));
            let idx = st.nodes.len() as int;
            BuildView {
                nodes: st1.nodes,
                edges: st1.edges,
                pending: Seq::empty(),
                loops: if st1.loops.len() > 0 {
                    st1.loops.update(
                        st1.loops.len() - 1,
                        st1.loops.last().push((idx, EdgeCondition::Unconditional)),
                    )
                } else {
                    st1.loops
                },
                rets: st1.rets,
            }
        },
        StmtView::Return(_) => {
            let st1 = attach(st, CFGNodeView::Statement(s));
            BuildView {
                nodes: st1.nodes,
                edges: st1.edges,
                pending: Seq::empty(),
                loops: st1.loops,
                rets: st1.rets.push(st.nodes.len() as int),
            }
        },
        StmtView::Block(l) => build_stmts(st, l),
        StmtView::If { cond, then, otherwise } => {
            let stc = attach(st, CFGNodeView::CondBr(cond));
            let c = st.nodes.len() as int;
            let st0 = BuildView {
                nodes: stc.nodes,
                edges: stc.edges,
                pending: seq![(c, EdgeCondition::IfTrue)],
                loops: stc.loops,
                rets: stc.rets,
            };
            let st_then = match then {
                Some(l) => build_stmts(st0, l),
                None => st0,
            };
            let st1 = BuildView {
                nodes: st_then.nodes,
                edges: st_then.edges,
                pending: seq![(c, EdgeCondition::IfFalse)],
                loops: st_then.loops,
                rets: st_then.rets,
            };
            let st_else = match otherwise {
                Some(l) => build_stmts(st1, l),
                None => st1,
            };
            BuildView {
                nodes: st_else.nodes,
                edges: st_else.edges,
                pending: st_then.pending.add(st_else.pending),
                loops: st_else.loops,
                rets: st_else.rets,
            }
        },
        StmtView::While { cond, then } => {
            let stc = attach(st, CFGNodeView::CondBr(cond));
            let c = st.nodes.len() as int;
            let st0 = BuildView {
                nodes: stc.nodes,
                edges: stc.edges,
                pending: seq![(c, EdgeCondition::IfTrue)],
                loops: stc.loops.push(Seq::empty()),
                rets: stc.rets,
            };
            let st_body = match then {
                Some(l) => build_stmts(st0, l),
                None => st0,
            };
            let brks = st_body.loops.last();
            BuildView {
                nodes: st_body.nodes,
                edges: st_body.edges.add(
                    st_body.pending.map_values(|p: (int, EdgeCondition)| (p.0, c, p.1)),
                ),
                pending: seq![(c, EdgeCondition::IfFalse)].add(brks),
                loops: st_body.loops.drop_last(),
                rets: st_body.rets,
            }
        },
        _ => attach(st, CFGNodeView::Statement(s)),
    }
}

pub proof fn lemma_stmt_size_pos(s: StmtView)
    ensures
        stmt_size(s) >= 1,
{
}

/// The effect of a statement list, front to back.
pub open spec fn build_stmts(st: BuildView, ss: Seq<StmtView>) -> BuildView
    decreases stmts_size(ss), 1int,
    via build_stmts_decreases
{
    if ss.len() == 0 {
        st
    } else {
        build_stmts(build_stmt(st, ss[0]), ss.subrange(1, ss.len() as int))
    }
}

#[via_fn]
proof fn build_stmts_decreases(st: BuildView, ss: Seq<StmtView>) {
    if ss.len() > 0 {
        lemma_stmt_size_pos(ss[0]);
    }
}

/// The builder's state at the start of a function: an entry node, pending.
pub open spec fn init_state() -> BuildView {
    BuildView {
        nodes: seq![CFGNodeView::Entry],
        edges: Seq::empty(),
        pending: seq![(0, EdgeCondition::Unconditional)],
        loops: Seq::empty(),
        rets: Seq::empty(),
    }
}

/// The whole graph of one function: entry, the body walk, and one exit node
/// wired from the final pending predecessors and from every `return`.
pub open spec fn build_function(f: FunctionView) -> CfgView {
    let st = build_stmts(init_state(), f.body);
    let x = st.nodes.len() as int;
    CfgView {
        nodes: st.nodes.push(CFGNodeView::Exit),
        edges: st.edges.add(
            st.pending.map_values(|p: (int, EdgeCondition)| (p.0, x, p.1)),
        ).add(st.rets.map_values(|n: int| (n, x, EdgeCondition::Unconditional))),
    }
}

/// One graph per function, in declaration order.
pub open spec fn build_program(p: ProgramView) -> Seq<CfgView> {
    p.functions.map_values(|f: FunctionView| build_function(f))
}

// ---------------------------------------------------------------------------
// Shape laws
// ---------------------------------------------------------------------------

/// A simple statement: one that becomes a single node with a single
/// unconditional outgoing edge.
pub open spec fn is_simple(s: StmtView) -> bool {
    match s {
        StmtView::VarDecl(_) => true,
        StmtView::Assign(_, _) => true,
        StmtView::Output(_) => true,
        StmtView::Error(_) => true,
        StmtView::ExpressionStatement(_) => true,
        _ => false,
    }
}

pub open spec fn all_simple(ss: Seq<StmtView>) -> bool {
    forall|k: int| 0 <= k < ss.len() ==> is_simple(#[trigger] ss[k])
}

/// Walking a straight line of simple statements from a single pending
/// predecessor `(q, lab)` appends one node per statement and chains them:
/// the first new node hangs off `(q, lab)`, each later one off its
/// predecessor, unconditionally.
proof fn lemma_build_simple_chain(st: BuildView, ss: Seq<StmtView>, q: int, lab: EdgeCondition)
    requires
        all_simple(ss),
        st.pending == seq![(q, lab)],
    ensures
        ({
            let r = build_stmts(st, ss);
            let base = st.nodes.len() as int;
            &&& r.nodes.len() == base + ss.len()
            &&& (forall|i: int| 0 <= i < base ==> r.nodes[i] == st.nodes[i])
            &&& (forall|i: int|
                0 <= i < ss.len() ==> r.nodes[base + i] == CFGNodeView::Statement(#[trigger] ss[i]))
            &&& r.edges.len() == st.edges.len() + ss.len()
            &&& (forall|i: int| 0 <= i < st.edges.len() ==> r.edges[i] == st.edges[i])
            &&& (ss.len() > 0 ==> r.edges[st.edges.len() as int] == (q, base, lab))
            &&& (forall|i: int|
                1 <= i < ss.len() ==> #[trigger] r.edges[st.edges.len() + i] == (
                    base + i - 1,
                    base + i,
                    EdgeCondition::Unconditional,
                ))
            &&& r.pending == (if ss.len() == 0 {
                st.pending
            } else {
                seq![(base + ss.len() - 1, EdgeCondition::Unconditional)]
            })
            &&& r.loops == st.loops
            &&& r.rets == st.rets
        }),
    decreases ss.len(),
{
    if ss.len() > 0 {
        let base = st.nodes.len() as int;
        assert(is_simple(ss[0]));
        let st1 = build_stmt(st, ss[0]);
        assert(st1 == attach(st, CFGNodeView::Statement(ss[0])));
        assert(st.pending.map_values(|p: (int, EdgeCondition)| (p.0, base, p.1)) =~= seq![
            (q, base, lab),
        ]);
        let rest = ss.subrange(1, ss.len() as int);
        lemma_build_simple_chain(st1, rest, base, EdgeCondition::Unconditional);
        assert(forall|i: int| 0 <= i < rest.len() ==> #[trigger] rest[i] == ss[i + 1]);
        let base1 = st1.nodes.len() as int;
        assert(base1 == base + 1);
        assert(st1.edges.len() == st.edges.len() + 1);
        assert(st1.edges[st.edges.len() as int] == (q, base, lab));
        assert(st1.nodes[base] == CFGNodeView::Statement(ss[0]));
        let r = build_stmts(st, ss);
        assert(r == build_stmts(st1, rest));
        assert forall|i: int| 0 <= i < ss.len() implies r.nodes[base + i] == CFGNodeView::Statement(
            #[trigger] ss[i],
        ) by {
            if i == 0 {
                assert(r.nodes[base] == st1.nodes[base]);
            } else {
                assert(r.nodes[base1 + (i - 1)] == CFGNodeView::Statement(rest[i - 1]));
                assert(rest[i - 1] == ss[i]);
            }
        }
        assert forall|i: int| 0 <= i < st.edges.len() implies r.edges[i] == st.edges[i] by {
            assert(r.edges[i] == st1.edges[i]);
        }
        assert(r.edges[st.edges.len() as int] == st1.edges[st.edges.len() as int]);
        assert forall|i: int| 1 <= i < ss.len() implies #[trigger] r.edges[st.edges.len() + i] == (
            base + i - 1,
            base + i,
            EdgeCondition::Unconditional,
        ) by {
            if i == 1 {
                assert(rest.len() > 0);
                assert(r.edges[st1.edges.len() as int] == (base, base1,
                    EdgeCondition::Unconditional));
                assert(st1.edges.len() as int == st.edges.len() + 1);
            } else {
                assert(r.edges[st1.edges.len() + (i - 1)] == (base1 + (i - 1) - 1, base1 + (i - 1),
                    EdgeCondition::Unconditional));
            }
        }
        if rest.len() == 0 {
            assert(r.pending == st1.pending);
            assert(r.pending =~= seq![(base + ss.len() - 1, EdgeCondition::Unconditional)]);
        }
    }
}

/// A function of `n` simple statements and no branches produces exactly
/// `n + 2` nodes and `n + 1` edges, all unconditional, forming one chain
/// from the entry node to the exit node.
pub proof fn lemma_straight_line_shape(f: FunctionView)
    requires
        all_simple(f.body),
    ensures
        ({
            let g = build_function(f);
            &&& g.nodes.len() == f.body.len() + 2
            &&& g.edges.len() == f.body.len() + 1
            &&& g.nodes[0] == CFGNodeView::Entry
            &&& g.nodes[f.body.len() as int + 1] == CFGNodeView::Exit
            &&& (forall|i: int|
                0 <= i < f.body.len() ==> g.nodes[i + 1] == CFGNodeView::Statement(
                    #[trigger] f.body[i],
                ))
            &&& (forall|i: int|
                0 <= i <= f.body.len() ==> #[trigger] g.edges[i] == (
                    i,
                    i + 1,
                    EdgeCondition::Unconditional,
                ))
        }),
{
    lemma_build_simple_chain(init_state(), f.body, 0, EdgeCondition::Unconditional);
    let st = build_stmts(init_state(), f.body);
    let n = f.body.len() as int;
    let x = st.nodes.len() as int;
    assert(x == n + 1);
    assert(st.pending.map_values(|p: (int, EdgeCondition)| (p.0, x, p.1)) =~= seq![
        ((x - 1) as int, x, EdgeCondition::Unconditional),
    ]);
    assert(st.rets.map_values(|m: int| (m, x, EdgeCondition::Unconditional)) =~= Seq::<
        (int, int, EdgeCondition),
    >::empty());
    let g = build_function(f);
    assert(g.nodes.len() == n + 2);
    assert(g.edges.len() == n + 1);
    assert(g.nodes[0] == init_state().nodes[0]);
    assert forall|i: int| 0 <= i < n implies g.nodes[i + 1] == CFGNodeView::Statement(
        #[trigger] f.body[i],
    ) by {
        assert(st.nodes[1 + i] == CFGNodeView::Statement(f.body[i]));
        assert(g.nodes[i + 1] == st.nodes[i + 1]);
    }
    assert forall|i: int| 0 <= i <= n implies #[trigger] g.edges[i] == (
        i,
        i + 1,
        EdgeCondition::Unconditional,
    ) by {
        if i < n {
            assert(g.edges[i] == st.edges[i]);
            if i == 0 {
                assert(st.edges[0int] == (0int, 1int, EdgeCondition::Unconditional));
            } else {
                assert(st.edges[init_state().edges.len() + i] == (1 + i - 1, 1 + i,
                    EdgeCondition::Unconditional));
            }
        } else {
            assert(g.edges[n] == ((x - 1) as int, x, EdgeCondition::Unconditional));
        }
    }
}

/// The graph of a function whose whole body is one `while` with a non-empty
/// straight-line body: the branch node's `IfTrue` edge enters the loop body,
/// the last body node has a back-edge to the branch node, and the branch
/// node's `IfFalse` edge leaves the loop (here, to the exit node).
pub proof fn lemma_while_shape(f: FunctionView, cond: ExprView, body: Seq<StmtView>)
    requires
        f.body == seq![StmtView::While { cond, then: Some(body) }],
        all_simple(body),
        body.len() > 0,
    ensures
        ({
            let g = build_function(f);
            let x = body.len() + 2;  // the exit node
            &&& g.nodes.len() == body.len() + 3
            &&& g.nodes[0] == CFGNodeView::Entry
            &&& g.nodes[1] == CFGNodeView::CondBr(cond)
            &&& (forall|i: int|
                0 <= i < body.len() ==> g.nodes[i + 2] == CFGNodeView::Statement(
                    #[trigger] body[i],
                ))
            &&& g.nodes[x as int] == CFGNodeView::Exit
            &&& g.edges.len() == body.len() + 3
            &&& g.edges[0] == (0int, 1int, EdgeCondition::Unconditional)
            &&& g.edges[1] == (1int, 2int, EdgeCondition::IfTrue)
            &&& (forall|i: int|
                1 <= i < body.len() ==> #[trigger] g.edges[1 + i] == (
                    i + 1,
                    i + 2,
                    EdgeCondition::Unconditional,
                ))
            &&& g.edges[body.len() as int + 1] == (
                body.len() as int + 1,
                1int,
                EdgeCondition::Unconditional,
            )
            &&& g.edges[body.len() as int + 2] == (1int, x as int, EdgeCondition::IfFalse)
        }),
{
    let s0 = init_state();
    let w = StmtView::While { cond, then: Some(body) };
    assert(f.body[0] == w);
    let stc = attach(s0, CFGNodeView::CondBr(cond));
    assert(s0.pending.map_values(|p: (int, EdgeCondition)| (p.0, 1int, p.1)) =~= seq![
        (0int, 1int, EdgeCondition::Unconditional),
    ]);
    let st0 = BuildView {
        nodes: stc.nodes,
        edges: stc.edges,
        pending: seq![(1int, EdgeCondition::IfTrue)],
        loops: stc.loops.push(Seq::empty()),
        rets: stc.rets,
    };
    lemma_build_simple_chain(st0, body, 1, EdgeCondition::IfTrue);
    let st_body = build_stmts(st0, body);
    let stw = build_stmt(s0, w);
    assert(st_body.pending =~= seq![(body.len() as int + 1, EdgeCondition::Unconditional)]);
    assert(st_body.pending.map_values(|p: (int, EdgeCondition)| (p.0, 1int, p.1)) =~= seq![
        (body.len() as int + 1, 1int, EdgeCondition::Unconditional),
    ]);
    assert(st_body.loops.last() =~= Seq::<(int, EdgeCondition)>::empty());
    assert(stw.pending =~= seq![(1int, EdgeCondition::IfFalse)]);
    assert(build_stmts(s0, f.body) == build_stmts(stw, f.body.subrange(1, 1)));
    assert(f.body.subrange(1, 1) =~= Seq::<StmtView>::empty());
    assert(build_stmts(s0, f.body) == stw);
    let x = stw.nodes.len() as int;
    assert(x == body.len() + 2);
    assert(stw.pending.map_values(|p: (int, EdgeCondition)| (p.0, x, p.1)) =~= seq![
        (1int, x, EdgeCondition::IfFalse),
    ]);
    assert(stw.rets.map_values(|n: int| (n, x, EdgeCondition::Unconditional)) =~= Seq::<
        (int, int, EdgeCondition),
    >::empty());
}

/// A function with an empty body still produces an entry-to-exit graph,
/// with no statement nodes.
pub proof fn lemma_empty_body_shape(f: FunctionView)
    requires
        f.body.len() == 0,
    ensures
        build_function(f).nodes =~= seq![CFGNodeView::Entry, CFGNodeView::Exit],
        build_function(f).edges =~= seq![(0int, 1int, EdgeCondition::Unconditional)],
{
    assert(f.body =~= Seq::<StmtView>::empty());
    let st = build_stmts(init_state(), f.body);
    assert(st == init_state());
    assert(st.pending.map_values(|p: (int, EdgeCondition)| (p.0, 1int, p.1)) =~= seq![
        (0int, 1int, EdgeCondition::Unconditional),
    ]);
    assert(st.rets.map_values(|n: int| (n, 1int, EdgeCondition::Unconditional)) =~= Seq::<
        (int, int, EdgeCondition),
    >::empty());
}

/// Mid-walk sanity of the builder state: there is exactly one entry node,
/// at index 0; no exit node yet; every index still waiting to be wired (the
/// pending predecessors, the collected `break`s, the recorded `return`s) is
/// a real node; and every edge laid down so far connects real nodes, never
/// into the entry node.
pub open spec fn state_bounded(st: BuildView) -> bool {
    &&& st.nodes.len() >= 1
    &&& st.nodes[0] == CFGNodeView::Entry
    &&& (forall|i: int|
        1 <= i < st.nodes.len() ==> !((#[trigger] st.nodes[i]) is Entry) && !(st.nodes[i] is Exit))
    &&& (forall|k: int| 0 <= k < st.pending.len() ==> 0 <= (#[trigger] st.pending[k]).0
        < st.nodes.len())
    &&& (forall|j: int, k: int|
        0 <= j < st.loops.len() && 0 <= k < st.loops[j].len() ==> 0 <= (
        #[trigger] st.loops[j][k]).0 < st.nodes.len())
    &&& (forall|k: int| 0 <= k < st.rets.len() ==> 0 <= #[trigger] st.rets[k] < st.nodes.len())
    &&& (forall|k: int|
        0 <= k < st.edges.len() ==> 0 <= (#[trigger] st.edges[k]).0 < st.nodes.len() && 1 <= (
        st.edges[k]).1 < st.nodes.len())
}

proof fn lemma_attach_bounded(st: BuildView, n: CFGNodeView)
    requires
        state_bounded(st),
        !(n is Entry),
        !(n is Exit),
    ensures
        state_bounded(attach(st, n)),
        attach(st, n).nodes.len() == st.nodes.len() + 1,
{
    let r = attach(st, n);
    let idx = st.nodes.len() as int;
    assert forall|k: int| 0 <= k < r.edges.len() implies 0 <= (#[trigger] r.edges[k]).0
        < r.nodes.len() && 1 <= (r.edges[k]).1 < r.nodes.len() by {
        if k >= st.edges.len() {
            let m = st.pending.map_values(|p: (int, EdgeCondition)| (p.0, idx, p.1));
            assert(r.edges[k] == m[k - st.edges.len()]);
            assert(m[k - st.edges.len()] == (st.pending[k - st.edges.len()].0, idx,
                st.pending[k - st.edges.len()].1));
        }
    }
}

/// One statement keeps the builder state sane and only ever adds nodes.
proof fn lemma_build_stmt_bounded(st: BuildView, s: StmtView)
    requires
        state_bounded(st),
    ensures
        state_bounded(build_stmt(st, s)),
        st.nodes.len() <= build_stmt(st, s).nodes.len(),
    decreases stmt_size(s), 0int,
{
    match s {
        StmtView::Break => {
            lemma_attach_bounded(st, CFGNodeView::Statement(s));
            let st1 = attach(st, CFGNodeView::Statement(s));
            let idx = st.nodes.len() as int;
            let r = build_stmt(st, s);
            if st1.loops.len() > 0 {
                assert forall|j: int, k: int|
                    0 <= j < r.loops.len() && 0 <= k < r.loops[j].len() implies 0 <= (
                #[trigger] r.loops[j][k]).0 < r.nodes.len() by {
                    if j == r.loops.len() - 1 && k == r.loops[j].len() - 1 {
                        assert(r.loops[j][k] == (idx, EdgeCondition::Unconditional));
                    } else {
                        assert(r.loops[j][k] == st1.loops[j][k]);
                    }
                }
            }
        },
        StmtView::Return(_) => {
            lemma_attach_bounded(st, CFGNodeView::Statement(s));
        },
        StmtView::Block(l) => {
            lemma_build_stmts_bounded(st, l);
        },
        StmtView::If { cond, then, otherwise } => {
            lemma_attach_bounded(st, CFGNodeView::CondBr(cond));
            let stc = attach(st, CFGNodeView::CondBr(cond));
            let c = st.nodes.len() as int;
            let st0 = BuildView {
                nodes: stc.nodes,
                edges: stc.edges,
                pending: seq![(c, EdgeCondition::IfTrue)],
                loops: stc.loops,
                rets: stc.rets,
            };
            assert(state_bounded(st0));
            match then {
                Some(l) => lemma_build_stmts_bounded(st0, l),
                None => {},
            }
            let st_then = match then {
                Some(l) => build_stmts(st0, l),
                None => st0,
            };
            let st1 = BuildView {
                nodes: st_then.nodes,
                edges: st_then.edges,
                pending: seq![(c, EdgeCondition::IfFalse)],
                loops: st_then.loops,
                rets: st_then.rets,
            };
            assert(state_bounded(st1));
            match otherwise {
                Some(l) => lemma_build_stmts_bounded(st1, l),
                None => {},
            }
            let st_else = match otherwise {
                Some(l) => build_stmts(st1, l),
                None => st1,
            };
            let r = build_stmt(st, s);
            assert forall|k: int| 0 <= k < r.pending.len() implies 0 <= (
            #[trigger] r.pending[k]).0 < r.nodes.len() by {
                if k < st_then.pending.len() {
                    assert(r.pending[k] == st_then.pending[k]);
                } else {
                    assert(r.pending[k] == st_else.pending[k - st_then.pending.len()]);
                }
            }
        },
        StmtView::While { cond, then } => {
            lemma_attach_bounded(st, CFGNodeView::CondBr(cond));
            let stc = attach(st, CFGNodeView::CondBr(cond));
            let c = st.nodes.len() as int;
            let st0 = BuildView {
                nodes: stc.nodes,
                edges: stc.edges,
                pending: seq![(c, EdgeCondition::IfTrue)],
                loops: stc.loops.push(Seq::empty()),
                rets: stc.rets,
            };
            assert forall|j: int, k: int|
                0 <= j < st0.loops.len() && 0 <= k < st0.loops[j].len() implies 0 <= (
            #[trigger] st0.loops[j][k]).0 < st0.nodes.len() by {
                if j < st0.loops.len() - 1 {
                    assert(st0.loops[j][k] == stc.loops[j][k]);
                }
            }
            assert(state_bounded(st0));
            match then {
                Some(l) => lemma_build_stmts_bounded(st0, l),
                None => {},
            }
            let st_body = match then {
                Some(l) => build_stmts(st0, l),
                None => st0,
            };
            let r = build_stmt(st, s);
            let back = st_body.pending.map_values(|p: (int, EdgeCondition)| (p.0, c, p.1));
            assert forall|k: int| 0 <= k < r.edges.len() implies 0 <= (#[trigger] r.edges[k]).0
                < r.nodes.len() && 1 <= (r.edges[k]).1 < r.nodes.len() by {
                if k >= st_body.edges.len() {
                    assert(r.edges[k] == back[k - st_body.edges.len()]);
                    assert(back[k - st_body.edges.len()] == (st_body.pending[k
                        - st_body.edges.len()].0, c, st_body.pending[k - st_body.edges.len()].1));
                }
            }
            assert(st_body.loops.len() == st0.loops.len()) by {
                match then {
                    Some(l) => lemma_build_stmts_loops(st0, l),
                    None => {},
                }
            }
            let brks = st_body.loops.last();
            assert forall|k: int| 0 <= k < r.pending.len() implies 0 <= (
            #[trigger] r.pending[k]).0 < r.nodes.len() by {
                if k > 0 {
                    assert(r.pending[k] == brks[k - 1]);
                    assert(brks == st_body.loops[st_body.loops.len() - 1]);
                }
            }
            assert forall|j: int, k: int|
                0 <= j < r.loops.len() && 0 <= k < r.loops[j].len() implies 0 <= (
            #[trigger] r.loops[j][k]).0 < r.nodes.len() by {
                assert(r.loops[j] == st_body.loops[j]);
            }
        },
        _ => {
            lemma_attach_bounded(st, CFGNodeView::Statement(s));
        },
    }
}

proof fn lemma_build_stmts_bounded(st: BuildView, ss: Seq<StmtView>)
    requires
        state_bounded(st),
    ensures
        state_bounded(build_stmts(st, ss)),
        st.nodes.len() <= build_stmts(st, ss).nodes.len(),
    decreases stmts_size(ss), 1int,
{
    if ss.len() > 0 {
        lemma_stmt_size_pos(ss[0]);
        lemma_build_stmt_bounded(st, ss[0]);
        lemma_build_stmts_bounded(build_stmt(st, ss[0]), ss.subrange(1, ss.len() as int));
    }
}

/// The shape every produced graph has: exactly one entry node (first, with
/// no incoming edge), exactly one exit node (last, with no outgoing edge),
/// and every edge between real nodes.
pub proof fn lemma_graph_valid(f: FunctionView)
    ensures
        ({
            let g = build_function(f);
            &&& g.nodes.len() >= 2
            &&& g.nodes[0] == CFGNodeView::Entry
            &&& g.nodes[g.nodes.len() - 1] == CFGNodeView::Exit
            &&& (forall|i: int|
                1 <= i < g.nodes.len() - 1 ==> !((#[trigger] g.nodes[i]) is Entry) && !(g.nodes[i]
                    is Exit))
            &&& (forall|k: int|
                0 <= k < g.edges.len() ==> 0 <= (#[trigger] g.edges[k]).0 < g.nodes.len() - 1 && 1
                    <= (g.edges[k]).1 < g.nodes.len())
        }),
{
    assert(state_bounded(init_state()));
    lemma_build_stmts_bounded(init_state(), f.body);
    let st = build_stmts(init_state(), f.body);
    let x = st.nodes.len() as int;
    let g = build_function(f);
    let pend = st.pending.map_values(|p: (int, EdgeCondition)| (p.0, x, p.1));
    let ret_edges = st.rets.map_values(|n: int| (n, x, EdgeCondition::Unconditional));
    assert forall|k: int| 0 <= k < g.edges.len() implies 0 <= (#[trigger] g.edges[k]).0
        < g.nodes.len() - 1 && 1 <= (g.edges[k]).1 < g.nodes.len() by {
        if k < st.edges.len() {
            assert(g.edges[k] == st.edges[k]);
        } else if k < st.edges.len() + pend.len() {
            assert(g.edges[k] == pend[k - st.edges.len()]);
            assert(pend[k - st.edges.len()] == (st.pending[k - st.edges.len()].0, x,
                st.pending[k - st.edges.len()].1));
        } else {
            assert(g.edges[k] == ret_edges[k - st.edges.len() - pend.len()]);
            assert(ret_edges[k - st.edges.len() - pend.len()] == (st.rets[k - st.edges.len()
                - pend.len()], x, EdgeCondition::Unconditional));
        }
    }
}

// ---------------------------------------------------------------------------
// Out-degree accounting: how many edges of each label leave each node
// ---------------------------------------------------------------------------

/// Edges in `es` that leave node `n` with label `lab`.
pub open spec fn cnt_edges(es: Seq<(int, int, EdgeCondition)>, n: int, lab: EdgeCondition) -> nat
    decreases es.len(),
{
    if es.len() == 0 {
        0
    } else {
        cnt_edges(es.drop_last(), n, lab) + (if es.last().0 == n && es.last().2 == lab {
            1nat
        } else {
            0nat
        })
    }
}

/// Pending predecessors in `ps` that will emit an edge from `n` with `lab`.
pub open spec fn cnt_pend(ps: Seq<(int, EdgeCondition)>, n: int, lab: EdgeCondition) -> nat
    decreases ps.len(),
{
    if ps.len() == 0 {
        0
    } else {
        cnt_pend(ps.drop_last(), n, lab) + (if ps.last().0 == n && ps.last().1 == lab {
            1nat
        } else {
            0nat
        })
    }
}

/// The same, over the whole stack of collected `break`s.
pub open spec fn cnt_loops(ls: Seq<Seq<(int, EdgeCondition)>>, n: int, lab: EdgeCondition) -> nat
    decreases ls.len(),
{
    if ls.len() == 0 {
        0
    } else {
        cnt_loops(ls.drop_last(), n, lab) + cnt_pend(ls.last(), n, lab)
    }
}

/// Recorded `return` nodes equal to `n` (their exit edge is unconditional).
pub open spec fn cnt_rets(rs: Seq<int>, n: int) -> nat
    decreases rs.len(),
{
    if rs.len() == 0 {
        0
    } else {
        cnt_rets(rs.drop_last(), n) + (if rs.last() == n {
            1nat
        } else {
            0nat
        })
    }
}

/// All the edges with label `lab` that node `n` already has or is owed:
/// laid-down edges, pending predecessors, collected `break`s, and recorded
/// `return`s.
pub open spec fn total_out(st: BuildView, n: int, lab: EdgeCondition) -> nat {
    cnt_edges(st.edges, n, lab) + cnt_pend(st.pending, n, lab) + cnt_loops(st.loops, n, lab) + (
    if lab is Unconditional {
        cnt_rets(st.rets, n)
    } else {
        0nat
    })
}

/// How many outgoing edges of each label a node of each kind ends up with.
pub open spec fn out_quota(nv: CFGNodeView, lab: EdgeCondition) -> nat {
    match nv {
        CFGNodeView::Entry => if lab is Unconditional {
            1nat
        } else {
            0nat
        },
        CFGNodeView::Statement(_) => if lab is Unconditional {
            1nat
        } else {
            0nat
        },
        CFGNodeView::CondBr(_) => if lab is Unconditional {
            0nat
        } else {
            1nat
        },
        CFGNodeView::Exit => 0nat,
    }
}

proof fn lemma_cnt_edges_add(a: Seq<(int, int, EdgeCondition)>, b: Seq<(int, int, EdgeCondition)>, n: int, lab: EdgeCondition)
    ensures
        cnt_edges(a.add(b), n, lab) == cnt_edges(a, n, lab) + cnt_edges(b, n, lab),
    decreases b.len(),
{
    if b.len() == 0 {
        assert(a.add(b) =~= a);
    } else {
        lemma_cnt_edges_add(a, b.drop_last(), n, lab);
        assert(a.add(b).drop_last() =~= a.add(b.drop_last()));
        assert(a.add(b).last() == b.last());
    }
}

proof fn lemma_cnt_pend_add(a: Seq<(int, EdgeCondition)>, b: Seq<(int, EdgeCondition)>, n: int, lab: EdgeCondition)
    ensures
        cnt_pend(a.add(b), n, lab) == cnt_pend(a, n, lab) + cnt_pend(b, n, lab),
    decreases b.len(),
{
    if b.len() == 0 {
        assert(a.add(b) =~= a);
    } else {
        lemma_cnt_pend_add(a, b.drop_last(), n, lab);
        assert(a.add(b).drop_last() =~= a.add(b.drop_last()));
        assert(a.add(b).last() == b.last());
    }
}

/// Wiring the pending predecessors to some target turns their owed edges
/// into laid-down edges with the same sources and labels.
proof fn lemma_cnt_wire(ps: Seq<(int, EdgeCondition)>, t: int, n: int, lab: EdgeCondition)
    ensures
        cnt_edges(ps.map_values(|p: (int, EdgeCondition)| (p.0, t, p.1)), n, lab) == cnt_pend(
            ps,
            n,
            lab,
        ),
    decreases ps.len(),
{
    let m = ps.map_values(|p: (int, EdgeCondition)| (p.0, t, p.1));
    if ps.len() > 0 {
        lemma_cnt_wire(ps.drop_last(), t, n, lab);
        assert(m.drop_last() =~= ps.drop_last().map_values(
            |p: (int, EdgeCondition)| (p.0, t, p.1),
        ));
        assert(m.last() == (ps.last().0, t, ps.last().1));
    } else {
        assert(m =~= Seq::<(int, int, EdgeCondition)>::empty());
    }
}

/// The exit edges of the recorded `return` nodes, counted per source.
proof fn lemma_cnt_wire_rets(rs: Seq<int>, t: int, n: int, lab: EdgeCondition)
    ensures
        cnt_edges(
            rs.map_values(|m: int| (m, t, EdgeCondition::Unconditional)),
            n,
            lab,
        ) == if lab is Unconditional {
            cnt_rets(rs, n)
        } else {
            0nat
        },
    decreases rs.len(),
{
    let m = rs.map_values(|k: int| (k, t, EdgeCondition::Unconditional));
    if rs.len() > 0 {
        lemma_cnt_wire_rets(rs.drop_last(), t, n, lab);
        assert(m.drop_last() =~= rs.drop_last().map_values(
            |k: int| (k, t, EdgeCondition::Unconditional),
        ));
        assert(m.last() == (rs.last(), t, EdgeCondition::Unconditional));
    } else {
        assert(m =~= Seq::<(int, int, EdgeCondition)>::empty());
    }
}

proof fn lemma_cnt_pend_zero(ps: Seq<(int, EdgeCondition)>, n: int, lab: EdgeCondition)
    requires
        forall|k: int| 0 <= k < ps.len() ==> (#[trigger] ps[k]).0 != n,
    ensures
        cnt_pend(ps, n, lab) == 0,
    decreases ps.len(),
{
    if ps.len() > 0 {
        lemma_cnt_pend_zero(ps.drop_last(), n, lab);
    }
}

proof fn lemma_cnt_edges_zero(es: Seq<(int, int, EdgeCondition)>, n: int, lab: EdgeCondition)
    requires
        forall|k: int| 0 <= k < es.len() ==> (#[trigger] es[k]).0 != n,
    ensures
        cnt_edges(es, n, lab) == 0,
    decreases es.len(),
{
    if es.len() > 0 {
        lemma_cnt_edges_zero(es.drop_last(), n, lab);
    }
}

proof fn lemma_cnt_loops_zero(ls: Seq<Seq<(int, EdgeCondition)>>, n: int, lab: EdgeCondition)
    requires
        forall|j: int, k: int|
            0 <= j < ls.len() && 0 <= k < ls[j].len() ==> (#[trigger] ls[j][k]).0 != n,
    ensures
        cnt_loops(ls, n, lab) == 0,
    decreases ls.len(),
{
    if ls.len() > 0 {
        lemma_cnt_loops_zero(ls.drop_last(), n, lab);
        assert(forall|k: int| 0 <= k < ls.last().len() ==> (#[trigger] ls.last()[k]).0 != n) by {
            assert(forall|k: int|
                0 <= k < ls.last().len() ==> ls.last()[k] == ls[ls.len() - 1][k]);
        }
        lemma_cnt_pend_zero(ls.last(), n, lab);
    }
}

proof fn lemma_cnt_rets_zero(rs: Seq<int>, n: int)
    requires
        forall|k: int| 0 <= k < rs.len() ==> #[trigger] rs[k] != n,
    ensures
        cnt_rets(rs, n) == 0,
    decreases rs.len(),
{
    if rs.len() > 0 {
        lemma_cnt_rets_zero(rs.drop_last(), n);
    }
}

/// A node the builder has not created yet has no edges and is owed none.
proof fn lemma_counts_zero_above(st: BuildView, n: int, lab: EdgeCondition)
    requires
        state_bounded(st),
        n >= st.nodes.len(),
    ensures
        total_out(st, n, lab) == 0,
{
    lemma_cnt_edges_zero(st.edges, n, lab);
    lemma_cnt_pend_zero(st.pending, n, lab);
    lemma_cnt_loops_zero(st.loops, n, lab);
    lemma_cnt_rets_zero(st.rets, n);
}

/// Attaching a node conserves every older node's totals and gives the new
/// node one owed unconditional edge.
proof fn lemma_attach_accounting(st: BuildView, nv: CFGNodeView, n: int, lab: EdgeCondition)
    ensures
        n < st.nodes.len() ==> total_out(attach(st, nv), n, lab) == total_out(st, n, lab),
        n == st.nodes.len() && total_out(st, n, lab) == 0 ==> total_out(attach(st, nv), n, lab)
            == (if lab is Unconditional { 1nat } else { 0nat }),
{
    let idx = st.nodes.len() as int;
    let r = attach(st, nv);
    lemma_cnt_edges_add(
        st.edges,
        st.pending.map_values(|p: (int, EdgeCondition)| (p.0, idx, p.1)),
        n,
        lab,
    );
    lemma_cnt_wire(st.pending, idx, n, lab);
    assert(cnt_pend(seq![(idx, EdgeCondition::Unconditional)], n, lab) == (if n == idx && lab
        is Unconditional {
        1nat
    } else {
        0nat
    })) by {
        let one = seq![(idx, EdgeCondition::Unconditional)];
        assert(one.drop_last() =~= Seq::<(int, EdgeCondition)>::empty());
        assert(cnt_pend(Seq::<(int, EdgeCondition)>::empty(), n, lab) == 0);
        assert(one.last() == (idx, EdgeCondition::Unconditional));
    }
}

proof fn lemma_cnt_pend_one(p: (int, EdgeCondition), n: int, lab: EdgeCondition)
    ensures
        cnt_pend(seq![p], n, lab) == (if p.0 == n && p.1 == lab {
            1nat
        } else {
            0nat
        }),
{
    assert(seq![p].drop_last() =~= Seq::<(int, EdgeCondition)>::empty());
    assert(cnt_pend(Seq::<(int, EdgeCondition)>::empty(), n, lab) == 0);
    assert(seq![p].last() == p);
}

proof fn lemma_cnt_loops_push(ls: Seq<Seq<(int, EdgeCondition)>>, e: Seq<(int, EdgeCondition)>, n: int, lab: EdgeCondition)
    ensures
        cnt_loops(ls.push(e), n, lab) == cnt_loops(ls, n, lab) + cnt_pend(e, n, lab),
{
    assert(ls.push(e).drop_last() =~= ls);
    assert(ls.push(e).last() == e);
}

proof fn lemma_cnt_rets_push(rs: Seq<int>, m: int, n: int)
    ensures
        cnt_rets(rs.push(m), n) == cnt_rets(rs, n) + (if m == n {
            1nat
        } else {
            0nat
        }),
{
    assert(rs.push(m).drop_last() =~= rs);
    assert(rs.push(m).last() == m);
}

proof fn lemma_cnt_loops_update_last(ls: Seq<Seq<(int, EdgeCondition)>>, x: (int, EdgeCondition), n: int, lab: EdgeCondition)
    requires
        ls.len() > 0,
    ensures
        cnt_loops(ls.update(ls.len() - 1, ls.last().push(x)), n, lab) == cnt_loops(ls, n, lab) + (
        if x.0 == n && x.1 == lab {
            1nat
        } else {
            0nat
        }),
{
    let u = ls.update(ls.len() - 1, ls.last().push(x));
    assert(u.drop_last() =~= ls.drop_last());
    assert(u.last() == ls.last().push(x));
    assert(ls.last().push(x).drop_last() =~= ls.last());
    assert(cnt_pend(ls.last().push(x), n, lab) == cnt_pend(ls.last(), n, lab) + (if x.0 == n
        && x.1 == lab {
        1nat
    } else {
        0nat
    }));
}

/// Walking a statement keeps every existing node in place and only appends.
proof fn lemma_build_stmt_prefix(st: BuildView, s: StmtView)
    ensures
        st.nodes.len() <= build_stmt(st, s).nodes.len(),
        forall|i: int|
            0 <= i < st.nodes.len() ==> #[trigger] build_stmt(st, s).nodes[i] == st.nodes[i],
    decreases stmt_size(s), 0int,
{
    match s {
        StmtView::Block(l) => lemma_build_stmts_prefix(st, l),
        StmtView::If { cond, then, otherwise } => {
            let stc = attach(st, CFGNodeView::CondBr(cond));
            let c = st.nodes.len() as int;
            let st0 = BuildView {
                nodes: stc.nodes,
                edges: stc.edges,
                pending: seq![(c, EdgeCondition::IfTrue)],
                loops: stc.loops,
                rets: stc.rets,
            };
            match then {
                Some(l) => lemma_build_stmts_prefix(st0, l),
                None => {},
            }
            let st_then = match then {
                Some(l) => build_stmts(st0, l),
                None => st0,
            };
            let st1 = BuildView {
                nodes: st_then.nodes,
                edges: st_then.edges,
                pending: seq![(c, EdgeCondition::IfFalse)],
                loops: st_then.loops,
                rets: st_then.rets,
            };
            match otherwise {
                Some(l) => lemma_build_stmts_prefix(st1, l),
                None => {},
            }
        },
        StmtView::While { cond, then } => {
            let stc = attach(st, CFGNodeView::CondBr(cond));
            let c = st.nodes.len() as int;
            let st0 = BuildView {
                nodes: stc.nodes,
                edges: stc.edges,
                pending: seq![(c, EdgeCondition::IfTrue)],
                loops: stc.loops.push(Seq::empty()),
                rets: stc.rets,
            };
            match then {
                Some(l) => lemma_build_stmts_prefix(st0, l),
                None => {},
            }
        },
        _ => {},
    }
}

proof fn lemma_build_stmts_prefix(st: BuildView, ss: Seq<StmtView>)
    ensures
        st.nodes.len() <= build_stmts(st, ss).nodes.len(),
        forall|i: int|
            0 <= i < st.nodes.len() ==> #[trigger] build_stmts(st, ss).nodes[i] == st.nodes[i],
    decreases stmts_size(ss), 1int,
{
    if ss.len() > 0 {
        lemma_stmt_size_pos(ss[0]);
        lemma_build_stmt_prefix(st, ss[0]);
        lemma_build_stmts_prefix(build_stmt(st, ss[0]), ss.subrange(1, ss.len() as int));
    }
}

/// Walking one statement conserves the edges owed to every existing node and
/// leaves every node it creates with exactly its quota: one unconditional
/// edge for a statement node, one `IfTrue` and one `IfFalse` for a branch
/// node.
proof fn lemma_out_stmt(st: BuildView, s: StmtView, n: int, lab: EdgeCondition)
    requires
        state_bounded(st),
        stmt_wf(s, st.loops.len() > 0),
    ensures
        0 <= n < st.nodes.len() ==> total_out(build_stmt(st, s), n, lab) == total_out(st, n, lab),
        st.nodes.len() <= n < build_stmt(st, s).nodes.len() ==> total_out(build_stmt(st, s), n, lab)
            == out_quota(build_stmt(st, s).nodes[n], lab),
    decreases stmt_size(s), 1int,
{
    match s {
        StmtView::Break => lemma_out_break(st, s, n, lab),
        StmtView::Return(_) => lemma_out_return(st, s, n, lab),
        StmtView::Block(l) => lemma_out_stmts(st, l, n, lab),
        StmtView::If { cond, then, otherwise } => lemma_out_if(st, s, n, lab),
        StmtView::While { cond, then } => lemma_out_while(st, s, n, lab),
        _ => lemma_out_simple(st, s, n, lab),
    }
}

proof fn lemma_out_simple(st: BuildView, s: StmtView, n: int, lab: EdgeCondition)
    requires
        state_bounded(st),
        is_simple(s),
    ensures
        0 <= n < st.nodes.len() ==> total_out(build_stmt(st, s), n, lab) == total_out(st, n, lab),
        st.nodes.len() <= n < build_stmt(st, s).nodes.len() ==> total_out(build_stmt(st, s), n, lab)
            == out_quota(build_stmt(st, s).nodes[n], lab),
{
    let idx = st.nodes.len() as int;
    let r = build_stmt(st, s);
    assert(r == attach(st, CFGNodeView::Statement(s)));
    lemma_attach_accounting(st, CFGNodeView::Statement(s), n, lab);
    if n == idx {
        lemma_counts_zero_above(st, n, lab);
        assert(r.nodes[n] == CFGNodeView::Statement(s));
    }
}

proof fn lemma_out_break(st: BuildView, s: StmtView, n: int, lab: EdgeCondition)
    requires
        state_bounded(st),
        s is Break,
        st.loops.len() > 0,
    ensures
        0 <= n < st.nodes.len() ==> total_out(build_stmt(st, s), n, lab) == total_out(st, n, lab),
        st.nodes.len() <= n < build_stmt(st, s).nodes.len() ==> total_out(build_stmt(st, s), n, lab)
            == out_quota(build_stmt(st, s).nodes[n], lab),
{
    let idx = st.nodes.len() as int;
    let r = build_stmt(st, s);
    let st1 = attach(st, CFGNodeView::Statement(s));
    lemma_attach_accounting(st, CFGNodeView::Statement(s), n, lab);
    lemma_cnt_pend_one((idx, EdgeCondition::Unconditional), n, lab);
    assert(st1.loops.len() > 0);
    lemma_cnt_loops_update_last(st1.loops, (idx, EdgeCondition::Unconditional), n, lab);
    assert(cnt_pend(Seq::<(int, EdgeCondition)>::empty(), n, lab) == 0);
    if n == idx {
        lemma_counts_zero_above(st, n, lab);
        assert(total_out(st1, n, lab) == (if lab is Unconditional {
            1nat
        } else {
            0nat
        }));
        assert(cnt_pend(st1.pending, n, lab) == (if lab is Unconditional {
            1nat
        } else {
            0nat
        }));
        assert(cnt_edges(st1.edges, n, lab) == 0);
        assert(cnt_loops(st1.loops, n, lab) == 0);
        lemma_cnt_rets_zero(st.rets, n);
        assert(cnt_rets(st1.rets, n) == 0);
        assert(r.nodes[n] == CFGNodeView::Statement(s));
    }
}

proof fn lemma_out_return(st: BuildView, s: StmtView, n: int, lab: EdgeCondition)
    requires
        state_bounded(st),
        s is Return,
    ensures
        0 <= n < st.nodes.len() ==> total_out(build_stmt(st, s), n, lab) == total_out(st, n, lab),
        st.nodes.len() <= n < build_stmt(st, s).nodes.len() ==> total_out(build_stmt(st, s), n, lab)
            == out_quota(build_stmt(st, s).nodes[n], lab),
{
    let idx = st.nodes.len() as int;
    let r = build_stmt(st, s);
    let st1 = attach(st, CFGNodeView::Statement(s));
    lemma_attach_accounting(st, CFGNodeView::Statement(s), n, lab);
    lemma_cnt_pend_one((idx, EdgeCondition::Unconditional), n, lab);
    lemma_cnt_rets_push(st1.rets, idx, n);
    assert(cnt_pend(Seq::<(int, EdgeCondition)>::empty(), n, lab) == 0);
    if n == idx {
        lemma_counts_zero_above(st, n, lab);
        assert(total_out(st1, n, lab) == (if lab is Unconditional {
            1nat
        } else {
            0nat
        }));
        assert(cnt_pend(st1.pending, n, lab) == (if lab is Unconditional {
            1nat
        } else {
            0nat
        }));
        assert(cnt_edges(st1.edges, n, lab) == 0);
        assert(cnt_loops(st1.loops, n, lab) == 0);
        lemma_cnt_rets_zero(st.rets, n);
        assert(cnt_rets(st1.rets, n) == 0);
        assert(r.nodes[n] == CFGNodeView::Statement(s));
    }
}

#[verifier::rlimit(100)]
#[verifier::spinoff_prover]
proof fn lemma_out_if(st: BuildView, s: StmtView, n: int, lab: EdgeCondition)
    requires
        state_bounded(st),
        s is If,
        stmt_wf(s, st.loops.len() > 0),
    ensures
        0 <= n < st.nodes.len() ==> total_out(build_stmt(st, s), n, lab) == total_out(st, n, lab),
        st.nodes.len() <= n < build_stmt(st, s).nodes.len() ==> total_out(build_stmt(st, s), n, lab)
            == out_quota(build_stmt(st, s).nodes[n], lab),
    decreases stmt_size(s), 0int,
{
    let cond = s->If_cond;
    let then = s->If_then;
    let otherwise = s->If_otherwise;
    let idx = st.nodes.len() as int;
    let r = build_stmt(st, s);
    let stc = attach(st, CFGNodeView::CondBr(cond));
    let c = idx;
    lemma_attach_bounded(st, CFGNodeView::CondBr(cond));
    let st0 = BuildView {
        nodes: stc.nodes,
        edges: stc.edges,
        pending: seq![(c, EdgeCondition::IfTrue)],
        loops: stc.loops,
        rets: stc.rets,
    };
    assert(state_bounded(st0));
    lemma_attach_accounting(st, CFGNodeView::CondBr(cond), n, lab);
    if n == c {
        lemma_counts_zero_above(st, n, lab);
    }
    lemma_cnt_pend_one((c, EdgeCondition::Unconditional), n, lab);
    lemma_cnt_pend_one((c, EdgeCondition::IfTrue), n, lab);
    lemma_cnt_pend_one((c, EdgeCondition::IfFalse), n, lab);
    match then {
        Some(l) => lemma_out_stmts(st0, l, n, lab),
        None => {},
    }
    let st_then = match then {
        Some(l) => build_stmts(st0, l),
        None => st0,
    };
    match then {
        Some(l) => {
            lemma_build_stmts_bounded(st0, l);
            lemma_build_stmts_prefix(st0, l);
            lemma_build_stmts_loops(st0, l);
        },
        None => {},
    }
    let st1 = BuildView {
        nodes: st_then.nodes,
        edges: st_then.edges,
        pending: seq![(c, EdgeCondition::IfFalse)],
        loops: st_then.loops,
        rets: st_then.rets,
    };
    assert(state_bounded(st1));
    match otherwise {
        Some(l) => lemma_out_stmts(st1, l, n, lab),
        None => {},
    }
    let st_else = match otherwise {
        Some(l) => build_stmts(st1, l),
        None => st1,
    };
    match otherwise {
        Some(l) => {
            lemma_build_stmts_bounded(st1, l);
            lemma_build_stmts_prefix(st1, l);
        },
        None => {},
    }
    lemma_cnt_pend_add(st_then.pending, st_else.pending, n, lab);
    if st_then.nodes.len() <= n {
        // nodes created by the else branch are not among the then branch's
        // pending predecessors
        lemma_cnt_pend_zero(st_then.pending, n, lab);
    }
}

#[verifier::rlimit(100)]
#[verifier::spinoff_prover]
proof fn lemma_out_while(st: BuildView, s: StmtView, n: int, lab: EdgeCondition)
    requires
        state_bounded(st),
        s is While,
        stmt_wf(s, st.loops.len() > 0),
    ensures
        0 <= n < st.nodes.len() ==> total_out(build_stmt(st, s), n, lab) == total_out(st, n, lab),
        st.nodes.len() <= n < build_stmt(st, s).nodes.len() ==> total_out(build_stmt(st, s), n, lab)
            == out_quota(build_stmt(st, s).nodes[n], lab),
    decreases stmt_size(s), 0int,
{
    let cond = s->While_cond;
    let then = s->While_then;
    let idx = st.nodes.len() as int;
    let r = build_stmt(st, s);
    let stc = attach(st, CFGNodeView::CondBr(cond));
    let c = idx;
    lemma_attach_bounded(st, CFGNodeView::CondBr(cond));
    let st0 = BuildView {
        nodes: stc.nodes,
        edges: stc.edges,
        pending: seq![(c, EdgeCondition::IfTrue)],
        loops: stc.loops.push(Seq::empty()),
        rets: stc.rets,
    };
    assert forall|j: int, k: int|
        0 <= j < st0.loops.len() && 0 <= k < st0.loops[j].len() implies 0 <= (
    #[trigger] st0.loops[j][k]).0 < st0.nodes.len() by {
        if j < st0.loops.len() - 1 {
            assert(st0.loops[j][k] == stc.loops[j][k]);
        }
    }
    assert(state_bounded(st0));
    lemma_attach_accounting(st, CFGNodeView::CondBr(cond), n, lab);
    if n == c {
        lemma_counts_zero_above(st, n, lab);
    }
    lemma_cnt_pend_one((c, EdgeCondition::Unconditional), n, lab);
    lemma_cnt_pend_one((c, EdgeCondition::IfTrue), n, lab);
    lemma_cnt_pend_one((c, EdgeCondition::IfFalse), n, lab);
    lemma_cnt_loops_push(stc.loops, Seq::empty(), n, lab);
    assert(cnt_pend(Seq::<(int, EdgeCondition)>::empty(), n, lab) == 0);
    match then {
        Some(l) => lemma_out_stmts(st0, l, n, lab),
        None => {},
    }
    let st_body = match then {
        Some(l) => build_stmts(st0, l),
        None => st0,
    };
    match then {
        Some(l) => {
            lemma_build_stmts_bounded(st0, l);
            lemma_build_stmts_loops(st0, l);
            lemma_build_stmts_prefix(st0, l);
        },
        None => {},
    }
    assert(st_body.loops.len() == st0.loops.len());
    let brks = st_body.loops.last();
    lemma_cnt_edges_add(
        st_body.edges,
        st_body.pending.map_values(|p: (int, EdgeCondition)| (p.0, c, p.1)),
        n,
        lab,
    );
    lemma_cnt_wire(st_body.pending, c, n, lab);
    lemma_cnt_pend_add(seq![(c, EdgeCondition::IfFalse)], brks, n, lab);
    // dropping the loop's collector moves its count into the pending set
    assert(cnt_loops(st_body.loops, n, lab) == cnt_loops(st_body.loops.drop_last(), n, lab)
        + cnt_pend(brks, n, lab));
}

proof fn lemma_out_stmts(st: BuildView, ss: Seq<StmtView>, n: int, lab: EdgeCondition)
    requires
        state_bounded(st),
        stmts_wf(ss, st.loops.len() > 0),
    ensures
        0 <= n < st.nodes.len() ==> total_out(build_stmts(st, ss), n, lab) == total_out(st, n, lab),
        st.nodes.len() <= n < build_stmts(st, ss).nodes.len() ==> total_out(
            build_stmts(st, ss),
            n,
            lab,
        ) == out_quota(build_stmts(st, ss).nodes[n], lab),
    decreases stmts_size(ss), 2int,
{
    if ss.len() > 0 {
        lemma_stmt_size_pos(ss[0]);
        let mid = build_stmt(st, ss[0]);
        lemma_out_stmt(st, ss[0], n, lab);
        lemma_build_stmt_bounded(st, ss[0]);
        lemma_build_stmt_loops(st, ss[0]);
        lemma_build_stmt_prefix(st, ss[0]);
        lemma_out_stmts(mid, ss.subrange(1, ss.len() as int), n, lab);
        lemma_build_stmts_prefix(mid, ss.subrange(1, ss.len() as int));
    }
}

/// Every node of every produced graph has exactly its expected outgoing
/// edges: one unconditional edge from the entry node and from each statement
/// node, exactly one `IfTrue` and one `IfFalse` edge from each branch node,
/// and none from the exit node.
pub proof fn lemma_out_degrees(f: FunctionView)
    requires
        function_wf(f),
    ensures
        ({
            let g = build_function(f);
            forall|n: int, lab: EdgeCondition|
                0 <= n < g.nodes.len() ==> #[trigger] cnt_edges(g.edges, n, lab) == out_quota(
                    g.nodes[n],
                    lab,
                )
        }),
{
    let g = build_function(f);
    let st = build_stmts(init_state(), f.body);
    let x = st.nodes.len() as int;
    assert(state_bounded(init_state()));
    lemma_build_stmts_bounded(init_state(), f.body);
    lemma_build_stmts_loops(init_state(), f.body);
    lemma_build_stmts_prefix(init_state(), f.body);
    assert forall|n: int, lab: EdgeCondition| 0 <= n < g.nodes.len() implies #[trigger] cnt_edges(
        g.edges,
        n,
        lab,
    ) == out_quota(g.nodes[n], lab) by {
        lemma_out_stmts(init_state(), f.body, n, lab);
        let pend = st.pending.map_values(|p: (int, EdgeCondition)| (p.0, x, p.1));
        let rete = st.rets.map_values(|m: int| (m, x, EdgeCondition::Unconditional));
        lemma_cnt_edges_add(st.edges, pend, n, lab);
        lemma_cnt_edges_add(st.edges.add(pend), rete, n, lab);
        lemma_cnt_wire(st.pending, x, n, lab);
        lemma_cnt_wire_rets(st.rets, x, n, lab);
        assert(st.loops.len() == 0);
        assert(cnt_loops(st.loops, n, lab) == 0);
        if n < x {
            // the graph's edges at n carry exactly what the walk owed it
            assert(cnt_edges(g.edges, n, lab) == total_out(st, n, lab));
            if n == 0 {
                assert(total_out(init_state(), n, lab) == out_quota(CFGNodeView::Entry, lab)) by {
                    lemma_cnt_pend_one((0int, EdgeCondition::Unconditional), n, lab);
                    assert(cnt_edges(Seq::<(int, int, EdgeCondition)>::empty(), n, lab) == 0);
                    assert(cnt_loops(Seq::<Seq<(int, EdgeCondition)>>::empty(), n, lab) == 0);
                    assert(cnt_rets(Seq::<int>::empty(), n) == 0);
                }
                assert(g.nodes[0] == CFGNodeView::Entry);
            } else {
                assert(total_out(st, n, lab) == out_quota(st.nodes[n], lab));
                assert(g.nodes[n] == st.nodes[n]);
            }
        } else {
            // the exit node: nothing ever points out of it
            assert(n == x);
            lemma_cnt_edges_zero(st.edges, n, lab);
            lemma_cnt_pend_zero(st.pending, n, lab);
            lemma_cnt_rets_zero(st.rets, n);
            assert(g.nodes[n] == CFGNodeView::Exit);
        }
    }
}

/// Building one statement neither opens nor closes an enclosing loop.
pub proof fn lemma_build_stmt_loops(st: BuildView, s: StmtView)
    ensures
        build_stmt(st, s).loops.len() == st.loops.len(),
    decreases stmt_size(s), 0int,
{
    match s {
        StmtView::Block(l) => lemma_build_stmts_loops(st, l),
        StmtView::If { cond, then, otherwise } => {
            let stc = attach(st, CFGNodeView::CondBr(cond));
            let c = st.nodes.len() as int;
            let st0 = BuildView {
                nodes: stc.nodes,
                edges: stc.edges,
                pending: seq![(c, EdgeCondition::IfTrue)],
                loops: stc.loops,
                rets: stc.rets,
            };
            match then {
                Some(l) => lemma_build_stmts_loops(st0, l),
                None => {},
            }
            let st_then = match then {
                Some(l) => build_stmts(st0, l),
                None => st0,
            };
            let st1 = BuildView {
                nodes: st_then.nodes,
                edges: st_then.edges,
                pending: seq![(c, EdgeCondition::IfFalse)],
                loops: st_then.loops,
                rets: st_then.rets,
            };
            match otherwise {
                Some(l) => lemma_build_stmts_loops(st1, l),
                None => {},
            }
        },
        StmtView::While { cond, then } => {
            let stc = attach(st, CFGNodeView::CondBr(cond));
            let c = st.nodes.len() as int;
            let st0 = BuildView {
                nodes: stc.nodes,
                edges: stc.edges,
                pending: seq![(c, EdgeCondition::IfTrue)],
                loops: stc.loops.push(Seq::empty()),
                rets: stc.rets,
            };
            match then {
                Some(l) => lemma_build_stmts_loops(st0, l),
                None => {},
            }
        },
        _ => {},
    }
}

pub proof fn lemma_build_stmts_loops(st: BuildView, ss: Seq<StmtView>)
    ensures
        build_stmts(st, ss).loops.len() == st.loops.len(),
    decreases stmts_size(ss), 1int,
{
    if ss.len() > 0 {
        lemma_stmt_size_pos(ss[0]);
        lemma_build_stmt_loops(st, ss[0]);
        lemma_build_stmts_loops(build_stmt(st, ss[0]), ss.subrange(1, ss.len() as int));
    }
}

// ---------------------------------------------------------------------------
// The builder, as code
// ---------------------------------------------------------------------------

/// The working state of a walk over one function.
struct Builder {
    nodes: Vec<CFGNode>,
    edges: Vec<CfgEdge>,
    pending: Vec<(usize, EdgeCondition)>,
    loops: Vec<Vec<(usize, EdgeCondition)>>,
    rets: Vec<usize>,
}

pub open spec fn view_pending(s: Seq<(usize, EdgeCondition)>) -> Seq<(int, EdgeCondition)> {
    s.map_values(|p: (usize, EdgeCondition)| (p.0 as int, p.1))
}

impl View for Builder {
    type V = BuildView;

    closed spec fn view(&self) -> BuildView {
        BuildView {
            nodes: self.nodes@.map_values(|n: CFGNode| n@),
            edges: self.edges@.map_values(|e: CfgEdge| (e.src as int, e.dst as int, e.cond)),
            pending: view_pending(self.pending@),
            loops: self.loops@.map_values(|l: Vec<(usize, EdgeCondition)>| view_pending(l@)),
            rets: self.rets@.map_values(|n: usize| n as int),
        }
    }
}

impl Builder {
    /// Add one edge from every pending predecessor to `target`.
    fn wire_pending(&mut self, target: usize)
        ensures
            final(self)@.nodes == old(self)@.nodes,
            final(self)@.pending == old(self)@.pending,
            final(self)@.loops == old(self)@.loops,
            final(self)@.rets == old(self)@.rets,
            final(self)@.edges == old(self)@.edges.add(
                old(self)@.pending.map_values(
                    |p: (int, EdgeCondition)| (p.0, target as int, p.1),
                ),
            ),
    {
        let ghost e0 = self@.edges;
        let ghost p0 = self@.pending;
        let np = self.pending.len();
        let mut k: usize = 0;
        while k < np
            invariant
                k <= np,
                np == self.pending.len(),
                view_pending(self.pending@) == p0,
                self@.pending == p0,
                self@.nodes == old(self)@.nodes,
                self@.loops == old(self)@.loops,
                self@.rets == old(self)@.rets,
                self@.edges == e0.add(
                    p0.subrange(0, k as int).map_values(
                        |p: (int, EdgeCondition)| (p.0, target as int, p.1),
                    ),
                ),
            decreases np - k,
        {
            let ghost ev0 = self@.edges;
            let p = self.pending[k];
            self.edges.push(CfgEdge { src: p.0, dst: target, cond: p.1 });
            proof {
                let f = |q: (int, EdgeCondition)| (q.0, target as int, q.1);
                assert(p0[k as int] == (p.0 as int, p.1));
                assert(self@.edges =~= ev0.push((p.0 as int, target as int, p.1)));
                assert(p0.subrange(0, k + 1 as int) =~= p0.subrange(0, k as int).push(
                    p0[k as int],
                ));
                assert(p0.subrange(0, k + 1 as int).map_values(f) =~= p0.subrange(
                    0,
                    k as int,
                ).map_values(f).push(f(p0[k as int])));
                assert(self@.edges =~= e0.add(p0.subrange(0, k + 1 as int).map_values(f)));
            }
            k = k + 1;
        }
        proof {
            assert(p0.subrange(0, np as int) =~= p0);
        }
    }

    /// Add one edge from every recorded `return` node to `target`.
    fn wire_rets(&mut self, target: usize)
        ensures
            final(self)@.nodes == old(self)@.nodes,
            final(self)@.pending == old(self)@.pending,
            final(self)@.loops == old(self)@.loops,
            final(self)@.rets == old(self)@.rets,
            final(self)@.edges == old(self)@.edges.add(
                old(self)@.rets.map_values(
                    |n: int| (n, target as int, EdgeCondition::Unconditional),
                ),
            ),
    {
        let ghost e0 = self@.edges;
        let ghost r0 = self@.rets;
        let nr = self.rets.len();
        let mut k: usize = 0;
        while k < nr
            invariant
                k <= nr,
                nr == self.rets.len(),
                self@.rets == r0,
                self@.pending == old(self)@.pending,
                self@.nodes == old(self)@.nodes,
                self@.loops == old(self)@.loops,
                self@.edges == e0.add(
                    r0.subrange(0, k as int).map_values(
                        |n: int| (n, target as int, EdgeCondition::Unconditional),
                    ),
                ),
            decreases nr - k,
        {
            let ghost ev0 = self@.edges;
            let n = self.rets[k];
            self.edges.push(CfgEdge { src: n, dst: target, cond: EdgeCondition::Unconditional });
            proof {
                let f = |m: int| (m, target as int, EdgeCondition::Unconditional);
                assert(r0[k as int] == n as int);
                assert(self@.edges =~= ev0.push((n as int, target as int,
                    EdgeCondition::Unconditional)));
                assert(r0.subrange(0, k + 1 as int) =~= r0.subrange(0, k as int).push(
                    r0[k as int],
                ));
                assert(r0.subrange(0, k + 1 as int).map_values(f) =~= r0.subrange(
                    0,
                    k as int,
                ).map_values(f).push(f(r0[k as int])));
                assert(self@.edges =~= e0.add(r0.subrange(0, k + 1 as int).map_values(f)));
            }
            k = k + 1;
        }
        proof {
            assert(r0.subrange(0, nr as int) =~= r0);
        }
    }

    /// Append one node, wired from every pending predecessor.
    fn attach_node(&mut self, n: CFGNode)
        ensures
            final(self)@ == attach(old(self)@, n@),
    {
        let idx = self.nodes.len();
        self.nodes.push(n);
        self.wire_pending(idx);
        self.pending = vec![(idx, EdgeCondition::Unconditional)];
        proof {
            assert(self@.nodes =~= old(self)@.nodes.push(n@));
            assert(self@.pending =~= seq![(idx as int, EdgeCondition::Unconditional)]);
            assert(self@ =~~= attach(old(self)@, n@));
        }
    }

    /// Walk one statement.
    fn do_stmt(&mut self, s: Statement)
        requires
            stmt_wf(view_stmt(s), old(self)@.loops.len() > 0),
        ensures
            final(self)@ == build_stmt(old(self)@, view_stmt(s)),
        decreases stmt_size(view_stmt(s)), 1int,
    {
        match s {
            Statement::Break => {
                let idx = self.nodes.len();
                self.attach_node(CFGNode::Statement(Statement::Break));
                let ghost loops1 = self@.loops;
                let mut top = self.loops.pop().unwrap();
                top.push((idx, EdgeCondition::Unconditional));
                self.loops.push(top);
                self.pending = Vec::new();
                proof {
                    assert(self@.pending =~= Seq::<(int, EdgeCondition)>::empty());
                    assert(self@.loops =~~= loops1.update(
                        loops1.len() - 1,
                        loops1.last().push((idx as int, EdgeCondition::Unconditional)),
                    ));
                    assert(self@ =~~= build_stmt(old(self)@, view_stmt(Statement::Break)));
                }
            },
            Statement::Return(e) => {
                let idx = self.nodes.len();
                self.attach_node(CFGNode::Statement(Statement::Return(e)));
                self.rets.push(idx);
                self.pending = Vec::new();
                proof {
                    assert(self@.pending =~= Seq::<(int, EdgeCondition)>::empty());
                    assert(self@.rets =~= old(self)@.rets.push(idx as int));
                    assert(self@ =~~= build_stmt(old(self)@, view_stmt(Statement::Return(e))));
                }
            },
            Statement::Block(l) => {
                proof {
                    assert(stmt_size(view_stmt(Statement::Block(l))) == 1 + stmts_size(
                        view_stmts(l@),
                    ));
                }
                self.do_stmts(l);
            },
            Statement::If { cond, then, otherwise } => {
                self.do_if(cond, then, otherwise);
            },
            Statement::While { cond, then } => {
                self.do_while(cond, then);
            },
            Statement::VarDecl(ids) => {
                self.attach_node(CFGNode::Statement(Statement::VarDecl(ids)));
            },
            Statement::Assign(a, b) => {
                self.attach_node(CFGNode::Statement(Statement::Assign(a, b)));
            },
            Statement::Output(e) => {
                self.attach_node(CFGNode::Statement(Statement::Output(e)));
            },
            Statement::Error(e) => {
                self.attach_node(CFGNode::Statement(Statement::Error(e)));
            },
            Statement::ExpressionStatement(e) => {
                self.attach_node(CFGNode::Statement(Statement::ExpressionStatement(e)));
            },
        }
    }

    /// Walk an `if`: one branch point, both arms, and their joint pending set.
    fn do_if(&mut self, cond: Expression, then: Option<Vec<Statement>>, otherwise: Option<
        Vec<Statement>,
    >)
        requires
            stmt_wf(
                view_stmt(Statement::If { cond, then, otherwise }),
                old(self)@.loops.len() > 0,
            ),
        ensures
            final(self)@ == build_stmt(old(self)@, view_stmt(Statement::If { cond, then, otherwise })),
        decreases stmt_size(view_stmt(Statement::If { cond, then, otherwise })), 0int,
    {
        let ghost gcond = cond;
        let ghost gthen = then;
        let ghost gotherwise = otherwise;
        let ghost base = self@;
        let ghost gv = view_stmt(Statement::If { cond: gcond, then: gthen, otherwise: gotherwise });
        self.attach_node(CFGNode::CondBr(cond));
        proof {
            assert(self@.nodes == self.nodes@.map_values(|n: CFGNode| n@));
            assert(self.nodes@.len() == self@.nodes.len());
            assert(self@.nodes.len() == base.nodes.len() + 1);
        }
        let c = self.nodes.len() - 1;
        self.pending = vec![(c, EdgeCondition::IfTrue)];
        let ghost stc = attach(base, CFGNodeView::CondBr(view_expr(gcond)));
        let ghost cc = base.nodes.len() as int;
        let ghost sp0 = BuildView {
            nodes: stc.nodes,
            edges: stc.edges,
            pending: seq![(cc, EdgeCondition::IfTrue)],
            loops: stc.loops,
            rets: stc.rets,
        };
        proof {
            assert(c as int == cc);
            assert(self@.pending =~= seq![(cc, EdgeCondition::IfTrue)]);
            assert(self@ =~~= sp0);
            assert(self@.loops == base.loops);
        }
        match then {
            Some(list) => {
                self.do_stmts(list);
            },
            None => {},
        }
        let ghost sp_then = match gthen {
            Some(l) => build_stmts(sp0, view_stmts(l@)),
            None => sp0,
        };
        proof {
            assert(self@ == sp_then);
            match gthen {
                Some(l) => lemma_build_stmts_loops(sp0, view_stmts(l@)),
                None => {},
            }
            assert(sp_then.loops.len() == base.loops.len());
        }
        let mut tp: Vec<(usize, EdgeCondition)> = Vec::new();
        core::mem::swap(&mut tp, &mut self.pending);
        self.pending = vec![(c, EdgeCondition::IfFalse)];
        let ghost sp1 = BuildView {
            nodes: sp_then.nodes,
            edges: sp_then.edges,
            pending: seq![(cc, EdgeCondition::IfFalse)],
            loops: sp_then.loops,
            rets: sp_then.rets,
        };
        proof {
            assert(view_pending(tp@) == sp_then.pending);
            assert(self@.pending =~= seq![(cc, EdgeCondition::IfFalse)]);
            assert(self@ =~~= sp1);
        }
        match otherwise {
            Some(list) => {
                self.do_stmts(list);
            },
            None => {},
        }
        let ghost sp_else = match gotherwise {
            Some(l) => build_stmts(sp1, view_stmts(l@)),
            None => sp1,
        };
        proof {
            assert(self@ == sp_else);
        }
        let mut ep: Vec<(usize, EdgeCondition)> = Vec::new();
        core::mem::swap(&mut ep, &mut self.pending);
        let ghost gtp = tp@;
        let ghost gep = ep@;
        proof {
            assert(view_pending(gep) == sp_else.pending);
        }
        let mut fin = tp;
        fin.append(&mut ep);
        self.pending = fin;
        proof {
            assert(self.pending@ == gtp.add(gep));
            assert(view_pending(gtp.add(gep)) =~= view_pending(gtp).add(view_pending(gep)));
            assert(self@.pending == sp_then.pending.add(sp_else.pending));
            assert(self@ =~~= build_stmt(base, gv));
        }
    }

    /// Walk a `while`: the branch point, the body, the back-edges, and the
    /// pending set made of the loop exit and every `break` in the body.
    fn do_while(&mut self, cond: Expression, then: Option<Vec<Statement>>)
        requires
            stmt_wf(view_stmt(Statement::While { cond, then }), old(self)@.loops.len() > 0),
        ensures
            final(self)@ == build_stmt(old(self)@, view_stmt(Statement::While { cond, then })),
        decreases stmt_size(view_stmt(Statement::While { cond, then })), 0int,
    {
        let ghost gcond = cond;
        let ghost gthen = then;
        let ghost base = self@;
        self.attach_node(CFGNode::CondBr(cond));
        proof {
            assert(self@.nodes == self.nodes@.map_values(|n: CFGNode| n@));
            assert(self.nodes@.len() == self@.nodes.len());
            assert(self@.nodes.len() == base.nodes.len() + 1);
        }
        let c = self.nodes.len() - 1;
        self.pending = vec![(c, EdgeCondition::IfTrue)];
        self.loops.push(Vec::new());
        let ghost stc = attach(base, CFGNodeView::CondBr(view_expr(gcond)));
        let ghost cc = base.nodes.len() as int;
        let ghost sp0 = BuildView {
            nodes: stc.nodes,
            edges: stc.edges,
            pending: seq![(cc, EdgeCondition::IfTrue)],
            loops: stc.loops.push(Seq::empty()),
            rets: stc.rets,
        };
        proof {
            assert(c as int == cc);
            assert(self@.pending =~= seq![(cc, EdgeCondition::IfTrue)]);
            assert(view_pending(Seq::<(usize, EdgeCondition)>::empty()) =~= Seq::<
                (int, EdgeCondition),
            >::empty());
            assert(self@.loops =~~= sp0.loops);
            assert(self@ =~~= sp0);
        }
        match then {
            Some(list) => {
                self.do_stmts(list);
            },
            None => {},
        }
        let ghost sp_body = match gthen {
            Some(l) => build_stmts(sp0, view_stmts(l@)),
            None => sp0,
        };
        proof {
            assert(self@ == sp_body);
            match gthen {
                Some(l) => lemma_build_stmts_loops(sp0, view_stmts(l@)),
                None => {},
            }
            assert(sp_body.loops.len() == base.loops.len() + 1);
        }
        self.wire_pending(c);
        let brks = self.loops.pop().unwrap();
        let mut pnew: Vec<(usize, EdgeCondition)> = vec![(c, EdgeCondition::IfFalse)];
        let mut brks = brks;
        pnew.append(&mut brks);
        self.pending = pnew;
        proof {
            assert(view_pending(self.pending@) =~= seq![(cc, EdgeCondition::IfFalse)].add(
                sp_body.loops.last(),
            ));
            assert(self@.loops =~~= sp_body.loops.drop_last());
            assert(self@ =~~= build_stmt(base, view_stmt(Statement::While { cond: gcond, then: gthen })));
        }
    }

    /// Walk a statement list, front to back.
    fn do_stmts(&mut self, list: Vec<Statement>)
        requires
            stmts_wf(view_stmts(list@), old(self)@.loops.len() > 0),
        ensures
            final(self)@ == build_stmts(old(self)@, view_stmts(list@)),
        decreases stmts_size(view_stmts(list@)), 2int,
    {
        let mut list = list;
        if list.len() > 0 {
            let ghost glist = list@;
            let st = list.remove(0);
            proof {
                lemma_view_stmts_index(glist);
                lemma_view_stmts_index(list@);
                assert(list@ =~= glist.subrange(1, glist.len() as int));
                assert(view_stmts(list@) =~= view_stmts(glist).subrange(
                    1,
                    view_stmts(glist).len() as int,
                ));
                lemma_stmt_size_pos(view_stmt(st));
            }
            let ghost mid0 = self@;
            self.do_stmt(st);
            proof {
                lemma_build_stmt_loops(mid0, view_stmt(st));
            }
            self.do_stmts(list);
        }
    }
}

/// Build the graph of one function: entry node, body walk, exit node.
fn build_function_cfg(f: Function) -> (c: Cfg)
    requires
        function_wf(f@),
    ensures
        c@ == build_function(f@),
{
    let ghost gf = f@;
    let Function { name: _, params: _, body } = f;
    let mut b = Builder {
        nodes: Vec::new(),
        edges: Vec::new(),
        pending: Vec::new(),
        loops: Vec::new(),
        rets: Vec::new(),
    };
    b.nodes.push(CFGNode::Entry);
    b.pending.push((0, EdgeCondition::Unconditional));
    proof {
        assert(b@.nodes =~= seq![CFGNodeView::Entry]);
        assert(b@.pending =~= seq![(0int, EdgeCondition::Unconditional)]);
        assert(b@.edges =~= Seq::<(int, int, EdgeCondition)>::empty());
        assert(b@.loops =~~= Seq::<Seq<(int, EdgeCondition)>>::empty());
        assert(b@.rets =~= Seq::<int>::empty());
        assert(b@ =~~= init_state());
    }
    b.do_stmts(body);
    let ghost st = build_stmts(init_state(), gf.body);
    proof {
        assert(b@ == st);
        assert(b@.nodes == b.nodes@.map_values(|n: CFGNode| n@));
        assert(b.nodes@.len() == b@.nodes.len());
    }
    let x = b.nodes.len();
    b.nodes.push(CFGNode::Exit);
    proof {
        assert(b@.nodes =~= st.nodes.push(CFGNodeView::Exit));
        assert(b@.pending == st.pending);
        assert(b@.rets == st.rets);
        assert(b@.edges == st.edges);
    }
    b.wire_pending(x);
    b.wire_rets(x);
    let c = Cfg { nodes: b.nodes, edges: b.edges };
    proof {
        assert(c@ =~~= build_function(gf));
    }
    c
}

/// Builds one CFG per function of a program.
pub struct IntraprocCFGBuilder {
    cfg: Vec<Cfg>,
}

impl View for IntraprocCFGBuilder {
    type V = Seq<CfgView>;

    closed spec fn view(&self) -> Seq<CfgView> {
        self.cfg@.map_values(|c: Cfg| c@)
    }
}

impl IntraprocCFGBuilder {
    /// Hand out the graphs, one per function in declaration order.
    pub fn to_owned_cfg_vec(self) -> (r: Vec<Cfg>)
        ensures
            r@.map_values(|c: Cfg| c@) == self@,
    {
        self.cfg
    }

    /// Walk a whole program and build every function's graph. The caller
    /// checks with `program_breaks_ok` that no `break` stands outside a
    /// loop, which the grammar alone does not rule out.
    pub fn from_program(p: Program) -> (r: IntraprocCFGBuilder)
        requires
            program_wf(p@),
        ensures
            r@ == build_program(p@),
    {
        let ghost gp = p@;
        let mut functions = p.functions;
        let ghost gfuncs = functions@;
        let n = functions.len();
        let mut cfg: Vec<Cfg> = Vec::new();
        let mut i: usize = 0;
        while i < n
            invariant
                i <= n,
                n == gfuncs.len(),
                functions@ == gfuncs.subrange(i as int, n as int),
                gp.functions == gfuncs.map_values(|f: Function| f@),
                program_wf(gp),
                cfg@.map_values(|c: Cfg| c@) == build_program(gp).subrange(0, i as int),
            decreases n - i,
        {
            let ghost cfgs0 = cfg@;
            let f = functions.remove(0);
            proof {
                assert(gfuncs.subrange(i as int, n as int)[0] == gfuncs[i as int]);
                assert(f == gfuncs[i as int]);
                assert(functions@ =~= gfuncs.subrange(i + 1 as int, n as int));
                assert(f@ == gp.functions[i as int]);
                assert(function_wf(f@));
            }
            let c = build_function_cfg(f);
            cfg.push(c);
            proof {
                assert(build_program(gp)[i as int] == build_function(gp.functions[i as int]));
                assert(cfg@.map_values(|c2: Cfg| c2@) =~= cfgs0.map_values(|c2: Cfg| c2@).push(
                    build_function(gp.functions[i as int]),
                ));
                assert(build_program(gp).subrange(0, i + 1 as int) =~= build_program(
                    gp,
                ).subrange(0, i as int).push(build_program(gp)[i as int]));
            }
            i = i + 1;
        }
        proof {
            assert(build_program(gp).subrange(0, n as int) =~= build_program(gp));
        }
        IntraprocCFGBuilder { cfg }
    }
}

// ---------------------------------------------------------------------------
// Checking loop nesting of `break`
// ---------------------------------------------------------------------------

pub proof fn lemma_stmts_wf_iff(ss: Seq<StmtView>, in_loop: bool)
    ensures
        stmts_wf(ss, in_loop) <==> (forall|k: int|
            0 <= k < ss.len() ==> stmt_wf(#[trigger] ss[k], in_loop)),
    decreases ss.len(),
{
    if ss.len() > 0 {
        let rest = ss.subrange(1, ss.len() as int);
        lemma_stmts_wf_iff(rest, in_loop);
        assert(forall|k: int| 0 <= k < rest.len() ==> #[trigger] rest[k] == ss[k + 1]);
        if forall|k: int| 0 <= k < ss.len() ==> stmt_wf(#[trigger] ss[k], in_loop) {
            assert(stmt_wf(ss[0], in_loop));
            assert(forall|k: int| 0 <= k < rest.len() ==> stmt_wf(#[trigger] rest[k], in_loop));
            assert(stmts_wf(ss, in_loop));
        }
        if stmts_wf(ss, in_loop) {
            assert(stmts_wf(rest, in_loop));
            assert forall|k: int| 0 <= k < ss.len() implies stmt_wf(#[trigger] ss[k], in_loop) by {
                if k > 0 {
                    assert(stmt_wf(rest[k - 1], in_loop));
                }
            }
        }
    }
}

fn stmt_breaks_ok(s: &Statement, in_loop: bool) -> (b: bool)
    ensures
        b == stmt_wf(view_stmt(*s), in_loop),
    decreases stmt_size(view_stmt(*s)), 1int,
{
    match s {
        Statement::Break => in_loop,
        Statement::If { cond: _, then, otherwise } => {
            let t_ok = match then {
                Some(l) => stmts_breaks_ok(l, in_loop),
                None => true,
            };
            if !t_ok {
                false
            } else {
                match otherwise {
                    Some(l) => stmts_breaks_ok(l, in_loop),
                    None => true,
                }
            }
        },
        Statement::While { cond: _, then } => match then {
            Some(l) => stmts_breaks_ok(l, true),
            None => true,
        },
        Statement::Block(l) => stmts_breaks_ok(l, in_loop),
        _ => true,
    }
}

fn stmts_breaks_ok(l: &Vec<Statement>, in_loop: bool) -> (b: bool)
    ensures
        b == stmts_wf(view_stmts(l@), in_loop),
    decreases stmts_size(view_stmts(l@)), 2int,
{
    proof {
        lemma_view_stmts_index(l@);
        lemma_stmts_wf_iff(view_stmts(l@), in_loop);
    }
    let n = l.len();
    let mut k: usize = 0;
    while k < n
        invariant
            k <= n,
            n == l.len(),
            forall|m: int| 0 <= m < k ==> stmt_wf(#[trigger] view_stmts(l@)[m], in_loop),
        decreases n - k,
    {
        proof {
            lemma_view_stmts_index(l@);
            lemma_stmts_size_element(view_stmts(l@), k as int);
        }
        let ok = stmt_breaks_ok(&l[k], in_loop);
        if !ok {
            proof {
                lemma_stmts_wf_iff(view_stmts(l@), in_loop);
            }
            return false;
        }
        k = k + 1;
    }
    proof {
        lemma_view_stmts_index(l@);
        lemma_stmts_wf_iff(view_stmts(l@), in_loop);
    }
    true
}

/// True exactly when every `break` in the program stands inside a `while`
/// body: the builder's precondition. The grammar alone does not enforce it.
pub fn program_breaks_ok(p: &Program) -> (b: bool)
    ensures
        b == program_wf(p@),
{
    let n = p.functions.len();
    let mut k: usize = 0;
    while k < n
        invariant
            k <= n,
            n == p.functions.len(),
            forall|m: int| 0 <= m < k ==> function_wf(#[trigger] p@.functions[m]),
        decreases n - k,
    {
        let ok = stmts_breaks_ok(&p.functions[k].body, false);
        proof {
            assert(p@.functions[k as int] == p.functions@[k as int]@);
            assert(p@.functions[k as int].body == view_stmts(p.functions@[k as int].body@));
        }
        if !ok {
            proof {
                assert(!function_wf(p@.functions[k as int]));
            }
            return false;
        }
        k = k + 1;
    }
    true
}

} // verus!
