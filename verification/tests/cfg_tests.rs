use tip::ast::{ASTVisitor, Expression};
use tip::cfg::{CFGNode, Cfg, CfgEdge, EdgeCondition, IntraprocCFGBuilder};
use tip::tip_parser::parse;

fn build_one(src: &str) -> Cfg {
    let program = parse(src.to_string()).unwrap();
    assert!(tip::cfg::program_breaks_ok(&program));
    let mut cfgs = IntraprocCFGBuilder::from_program(program).to_owned_cfg_vec();
    assert_eq!(cfgs.len(), 1);
    cfgs.remove(0)
}

fn edge(src: usize, dst: usize, cond: EdgeCondition) -> CfgEdge {
    CfgEdge { src, dst, cond }
}

/// Straight-line code: `n` simple statements become `n + 2` nodes and
/// `n + 1` unconditional edges in one chain from entry to exit.
#[test]
fn straight_line_chain() {
    let cfg = build_one("f() { var x; y = 1; output y; }");
    assert_eq!(cfg.nodes.len(), 5);
    assert_eq!(cfg.edges.len(), 4);
    assert!(matches!(cfg.nodes[0], CFGNode::Entry));
    assert!(matches!(cfg.nodes[4], CFGNode::Exit));
    for i in 0..4 {
        assert_eq!(cfg.edges[i], edge(i, i + 1, EdgeCondition::Unconditional));
    }
}

/// An `if`/`else` produces exactly one branch node with one `IfTrue` and one
/// `IfFalse` edge to two distinct one-node branches, and both branches
/// converge on the exit node.
#[test]
fn if_else_shape() {
    let cfg = build_one("f() { if (1) { x = 1; } else { x = 2; } }");
    assert_eq!(cfg.nodes.len(), 5);
    let branches: Vec<usize> = (0..cfg.nodes.len())
        .filter(|i| matches!(cfg.nodes[*i], CFGNode::CondBr(_)))
        .collect();
    assert_eq!(branches, vec![1]);
    let out: Vec<&CfgEdge> = cfg.edges.iter().filter(|e| e.src == 1).collect();
    assert_eq!(out.len(), 2);
    assert_eq!(*out[0], edge(1, 2, EdgeCondition::IfTrue));
    assert_eq!(*out[1], edge(1, 3, EdgeCondition::IfFalse));
    // both one-node branches feed the exit node
    assert!(matches!(cfg.nodes[4], CFGNode::Exit));
    assert!(cfg.edges.contains(&edge(2, 4, EdgeCondition::Unconditional)));
    assert!(cfg.edges.contains(&edge(3, 4, EdgeCondition::Unconditional)));
    assert_eq!(cfg.edges.len(), 5);
}

/// A `while` loop: a back-edge from the last body node to the branch node,
/// and an `IfFalse` edge leaving the loop.
#[test]
fn while_back_edge() {
    let cfg = build_one("f() { while (1) { x = 1; y = 2; } }");
    assert_eq!(cfg.nodes.len(), 5);
    assert!(matches!(cfg.nodes[1], CFGNode::CondBr(_)));
    assert_eq!(
        cfg.edges,
        vec![
            edge(0, 1, EdgeCondition::Unconditional),
            edge(1, 2, EdgeCondition::IfTrue),
            edge(2, 3, EdgeCondition::Unconditional),
            edge(3, 1, EdgeCondition::Unconditional), // the back-edge
            edge(1, 4, EdgeCondition::IfFalse),       // leaving the loop
        ]
    );
}

/// A `break` links to the loop's `IfFalse` successor, not back to the branch
/// node.
#[test]
fn break_leaves_loop() {
    let cfg = build_one("f() { while (1) { break; } output x; }");
    // nodes: entry, branch, break, output, exit
    assert_eq!(cfg.nodes.len(), 5);
    assert!(matches!(cfg.nodes[1], CFGNode::CondBr(_)));
    assert!(matches!(cfg.nodes[3], CFGNode::Statement(_)));
    // the break node and the IfFalse edge both reach the statement after the loop
    assert!(cfg.edges.contains(&edge(1, 3, EdgeCondition::IfFalse)));
    assert!(cfg.edges.contains(&edge(2, 3, EdgeCondition::Unconditional)));
    // no edge from the break node back to the branch node
    assert!(!cfg.edges.iter().any(|e| e.src == 2 && e.dst == 1));
}

/// An empty body still gives an entry-to-exit graph with no statement nodes.
#[test]
fn empty_body_graph() {
    let cfg = build_one("f(){}");
    assert_eq!(cfg.nodes.len(), 2);
    assert!(matches!(cfg.nodes[0], CFGNode::Entry));
    assert!(matches!(cfg.nodes[1], CFGNode::Exit));
    assert_eq!(cfg.edges, vec![edge(0, 1, EdgeCondition::Unconditional)]);
}

/// Statements after an unconditional `return` are built as a chain that
/// feeds the exit node but has no incoming edge from the entry chain.
#[test]
fn return_ends_chain() {
    let cfg = build_one("f() { return 1; output x; }");
    assert_eq!(cfg.nodes.len(), 4);
    assert_eq!(
        cfg.edges,
        vec![
            edge(0, 1, EdgeCondition::Unconditional),
            edge(2, 3, EdgeCondition::Unconditional), // dead chain into exit
            edge(1, 3, EdgeCondition::Unconditional), // return into exit
        ]
    );
}

/// A bare block is inlined: no node for the block itself.
#[test]
fn block_is_inlined() {
    let cfg = build_one("f() { { var x; var y; } }");
    assert_eq!(cfg.nodes.len(), 4);
    for i in 0..3 {
        assert_eq!(cfg.edges[i], edge(i, i + 1, EdgeCondition::Unconditional));
    }
}

/// One graph per function, in declaration order.
#[test]
fn one_graph_per_function() {
    let program = parse("f() { var x; } g() {}".to_string()).unwrap();
    assert!(tip::cfg::program_breaks_ok(&program));
    let cfgs = IntraprocCFGBuilder::from_program(program).to_owned_cfg_vec();
    assert_eq!(cfgs.len(), 2);
    assert_eq!(cfgs[0].nodes.len(), 3);
    assert_eq!(cfgs[1].nodes.len(), 2);
}

/// The grammar does not reject a stray `break`; the nesting check does.
#[test]
fn stray_break_is_detected() {
    let program = parse("f() { break; }".to_string()).unwrap();
    assert!(!tip::cfg::program_breaks_ok(&program));
    let ok = parse("f() { while (1) break; }".to_string()).unwrap();
    assert!(tip::cfg::program_breaks_ok(&ok));
    let nested = parse("f() { while (1) { if (1) { break; } } }".to_string()).unwrap();
    assert!(tip::cfg::program_breaks_ok(&nested));
}

/// The branch condition expression is carried on the branch node.
#[test]
fn branch_node_carries_condition() {
    let cfg = build_one("f() { if (42) var x; }");
    match &cfg.nodes[1] {
        CFGNode::CondBr(e) => assert_eq!(*e, Expression::Number(42)),
        other => panic!("expected a branch node, got {:?}", other),
    }
}

struct CountingVisitor {
    functions: usize,
    statements: usize,
}

impl tip::ast::ASTVisitor for CountingVisitor {
    fn visit_program(&mut self, p: tip::ast::Program) {
        tip::ast::super_visit_program(self, p)
    }

    fn visit_function(&mut self, f: tip::ast::Function) {
        self.functions += 1;
        tip::ast::super_visit_function(self, f)
    }

    fn visit_statement_list(&mut self, s: tip::ast::StatementList) {
        tip::ast::super_visit_statement_list(self, s)
    }

    fn visit_statement(&mut self, _s: tip::ast::Statement) {
        self.statements += 1;
    }
}

/// The default traversal visits every function and every top-level statement
/// in declaration order, without recursing into nested blocks by itself.
#[test]
fn visitor_walks_declaration_order() {
    let program = parse("f() { var x; y = 1; } g() { output y; }".to_string()).unwrap();
    let mut v = CountingVisitor { functions: 0, statements: 0 };
    v.visit_program(program);
    assert_eq!(v.functions, 2);
    assert_eq!(v.statements, 3);
}
