use klee_analysis::call_graph::CallGraph;
use klee_analysis::ir::BasicBlock;
use klee_analysis::ir::Function;
use klee_analysis::ir::Instruction;
use klee_analysis::ir::Opcode;
use klee_analysis::transformation::CallGraphPrinter;

fn call_inst(callee: &str) -> Instruction {
    Instruction {
        opcode: Opcode::Call,
        num_operands: 1,
        debug_loc: None,
        callee: Some(callee.to_string()),
    }
}

fn func(name: &str, instructions: Vec<Instruction>) -> Function {
    Function { name: name.to_string(), blocks: vec![BasicBlock { instructions }] }
}

fn node_names(g: &CallGraph) -> Vec<String> {
    let mut names = Vec::new();
    let mut i = 0;
    while i < g.node_count() {
        names.push(g.node_name(i).clone());
        i += 1;
    }
    names
}

#[test]
fn builder_idempotent() {
    let mut g = CallGraph::new();
    let f = func("main", vec![call_inst("helper"), call_inst("helper")]);
    g.add_callees_from_function(&f);
    assert_eq!(g.node_count(), 2);
    assert_eq!(g.edge_count(), 1);
    g.add_callees_from_function(&f);
    assert_eq!(g.node_count(), 2);
    assert_eq!(g.edge_count(), 1);
}

#[test]
fn builder_excludes_prefixes() {
    let mut g = CallGraph::new();
    let f = func(
        "main",
        vec![call_inst("llvm.dbg.value"), call_inst("__assert_fail"), call_inst("helper")],
    );
    g.add_callees_from_function(&f);
    assert_eq!(g.node_count(), 2);
    assert_eq!(g.edge_count(), 1);
    let names = node_names(&g);
    assert!(names.contains(&"main".to_string()));
    assert!(names.contains(&"helper".to_string()));
    assert!(!names.contains(&"llvm.dbg.value".to_string()));
    assert!(!names.contains(&"__assert_fail".to_string()));
}

#[test]
fn custom_exclusion_policy() {
    let mut g = CallGraph::with_excluded_prefixes(vec!["sys_".to_string()]);
    g.add_callees_from_function(&func(
        "main",
        vec![call_inst("sys_write"), call_inst("llvm.dbg.value"), call_inst("work")],
    ));
    let mut names = node_names(&g);
    names.sort();
    assert_eq!(
        names,
        vec!["llvm.dbg.value".to_string(), "main".to_string(), "work".to_string()]
    );
}

#[test]
fn call_like_opcodes_only() {
    let mut g = CallGraph::new();
    let mut not_a_call = call_inst("x");
    not_a_call.opcode = Opcode::Other;
    let invoke = Instruction {
        opcode: Opcode::Invoke,
        num_operands: 1,
        debug_loc: None,
        callee: Some("handler".to_string()),
    };
    let indirect = Instruction {
        opcode: Opcode::Call,
        num_operands: 1,
        debug_loc: None,
        callee: None,
    };
    g.add_callees_from_function(&func("main", vec![not_a_call, invoke, indirect]));
    assert_eq!(g.edge_count(), 1);
    let names = node_names(&g);
    assert!(names.contains(&"handler".to_string()));
    assert!(!names.contains(&"x".to_string()));
}

#[test]
fn caller_without_valid_callees_stays_out() {
    let mut g = CallGraph::new();
    g.add_callees_from_function(&func("quiet", vec![call_inst("llvm.lifetime.start")]));
    assert_eq!(g.node_count(), 0);
    assert_eq!(g.edge_count(), 0);
}

#[test]
fn reachability_depth_zero() {
    let mut g = CallGraph::new();
    g.add_callees_from_function(&func("main", vec![call_inst("a")]));
    let r = g.find_callees_within_depth("main", 0);
    assert_eq!(r, vec!["main".to_string()]);
}

#[test]
fn reachability_missing_start() {
    let mut g = CallGraph::new();
    g.add_callees_from_function(&func("main", vec![call_inst("a")]));
    assert!(g.find_callees_within_depth("missing", 0).is_empty());
    assert!(g.find_callees_within_depth("missing", 7).is_empty());
}

#[test]
fn reachability_linear_chain() {
    let mut g = CallGraph::new();
    g.add_callees_from_function(&func("A", vec![call_inst("B")]));
    g.add_callees_from_function(&func("B", vec![call_inst("C")]));
    g.add_callees_from_function(&func("C", vec![call_inst("D")]));
    let mut r2 = g.find_callees_within_depth("A", 2);
    r2.sort();
    assert_eq!(r2, vec!["A".to_string(), "B".to_string(), "C".to_string()]);
    let mut r10 = g.find_callees_within_depth("A", 10);
    r10.sort();
    assert_eq!(
        r10,
        vec!["A".to_string(), "B".to_string(), "C".to_string(), "D".to_string()]
    );
}

#[test]
fn reachability_cycle_terminates() {
    let mut g = CallGraph::new();
    g.add_callees_from_function(&func("A", vec![call_inst("B")]));
    g.add_callees_from_function(&func("B", vec![call_inst("A")]));
    let mut r = g.find_callees_within_depth("A", 5);
    r.sort();
    assert_eq!(r, vec!["A".to_string(), "B".to_string()]);
}

#[test]
fn reachability_diamond() {
    let mut g = CallGraph::new();
    g.add_callees_from_function(&func("top", vec![call_inst("left"), call_inst("right")]));
    g.add_callees_from_function(&func("left", vec![call_inst("bottom")]));
    g.add_callees_from_function(&func("right", vec![call_inst("bottom")]));
    let mut r = g.find_callees_within_depth("top", 2);
    r.sort();
    assert_eq!(
        r,
        vec![
            "bottom".to_string(),
            "left".to_string(),
            "right".to_string(),
            "top".to_string()
        ]
    );
}

#[test]
fn graph_printer_lines() {
    let mut g = CallGraph::new();
    g.add_callees_from_function(&func("main", vec![call_inst("helper")]));
    let printer = CallGraphPrinter;
    let lines = printer.run_pass(&g);
    assert_eq!(
        lines,
        vec![
            "node: main".to_string(),
            "node: helper".to_string(),
            "edge: main -> helper".to_string()
        ]
    );
}
