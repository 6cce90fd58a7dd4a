use klee_analysis::analysis::CallGraphAnalysis;
use klee_analysis::analysis::ForkInstAnalysis;
use klee_analysis::ir::BasicBlock;
use klee_analysis::ir::DebugLocation;
use klee_analysis::ir::DebugScope;
use klee_analysis::ir::FileDescriptor;
use klee_analysis::ir::Function;
use klee_analysis::ir::Instruction;
use klee_analysis::ir::Module;
use klee_analysis::ir::Opcode;
use klee_analysis::transformation::ForkInfoPrinter;
use klee_analysis::transformation::ForkInfoWithDep;

fn full_loc(dir: &str, file: &str, line: u32, column: u32) -> DebugLocation {
    DebugLocation {
        scope: Some(DebugScope {
            file: Some(FileDescriptor {
                directory: dir.to_string(),
                filename: file.to_string(),
            }),
        }),
        line,
        column,
    }
}

fn br(num_operands: u32, debug_loc: Option<DebugLocation>) -> Instruction {
    Instruction { opcode: Opcode::Br, num_operands, debug_loc, callee: None }
}

fn switch(num_operands: u32, debug_loc: Option<DebugLocation>) -> Instruction {
    Instruction { opcode: Opcode::Switch, num_operands, debug_loc, callee: None }
}

fn call_inst(callee: &str) -> Instruction {
    Instruction {
        opcode: Opcode::Call,
        num_operands: 1,
        debug_loc: None,
        callee: Some(callee.to_string()),
    }
}

fn func(name: &str, instructions: Vec<Instruction>) -> Function {
    Function { name: name.to_string(), blocks: vec![BasicBlock { instructions }] }
}

#[test]
fn collector_selects_forks() {
    let f = func(
        "f",
        vec![
            br(1, Some(full_loc("/s", "a.c", 1, 1))),
            br(3, Some(full_loc("/s", "a.c", 2, 5))),
            switch(4, Some(full_loc("/s", "a.c", 3, 1))),
            br(3, None),
            call_inst("g"),
        ],
    );
    let analysis = ForkInstAnalysis;
    let locs = analysis.run_analysis(&f);
    assert_eq!(locs.len(), 2);
    assert_eq!(locs[0].render(), "/s/a.c:2:5");
    assert_eq!(locs[1].render(), "/s/a.c:3:1");
}

#[test]
fn collector_keeps_stream_order_and_duplicates() {
    let f = Function {
        name: "f".to_string(),
        blocks: vec![
            BasicBlock { instructions: vec![br(3, Some(full_loc("", "a.c", 9, 1)))] },
            BasicBlock {
                instructions: vec![
                    br(3, Some(full_loc("", "a.c", 4, 2))),
                    br(3, Some(full_loc("", "a.c", 4, 2))),
                ],
            },
        ],
    };
    let analysis = ForkInstAnalysis;
    let locs = analysis.run_analysis(&f);
    assert_eq!(locs.len(), 3);
    assert_eq!(locs[0].line(), 9);
    assert_eq!(locs[1].line(), 4);
    assert_eq!(locs[2].line(), 4);
}

#[test]
fn printer_header_and_lines() {
    let f = func("helper", vec![br(3, Some(full_loc("", "file.c", 10, 3)))]);
    let printer = ForkInfoPrinter;
    let lines = printer.run_pass(&f);
    assert_eq!(lines.len(), 2);
    assert_eq!(lines[0], "Function 'helper' has 1 fork instruction(s):");
    assert_eq!(lines[1], "file.c:10:3");
}

#[test]
fn end_to_end_report() {
    let helper = func(
        "helper",
        vec![br(3, Some(full_loc("", "file.c", 10, 3))), br(3, None)],
    );
    let main_f = func("main", vec![call_inst("llvm.dbg.value"), call_inst("helper")]);
    let module = Module { functions: vec![main_f, helper] };

    let graph_analysis = CallGraphAnalysis;
    let g = graph_analysis.run_analysis(&module);
    assert_eq!(g.node_count(), 2);
    assert_eq!(g.edge_count(), 1);

    let pass = ForkInfoWithDep::new(1);
    let report = pass.run_pass(&module);
    assert_eq!(
        report,
        vec!["function: helper".to_string(), "file.c:10:3".to_string()]
    );
}

#[test]
fn report_depth_zero_excludes_callees() {
    let helper = func("helper", vec![br(3, Some(full_loc("", "file.c", 10, 3)))]);
    let main_f = func("main", vec![call_inst("helper")]);
    let module = Module { functions: vec![main_f, helper] };
    let pass = ForkInfoWithDep::new(0);
    let report = pass.run_pass(&module);
    assert!(report.is_empty());
}

#[test]
fn report_for_custom_entry() {
    let helper = func("helper", vec![br(3, Some(full_loc("", "file.c", 10, 3)))]);
    let side = func(
        "side",
        vec![switch(2, Some(full_loc("", "b.c", 4, 1))), call_inst("helper")],
    );
    let main_f = func("main", vec![call_inst("helper")]);
    let module = Module { functions: vec![main_f, helper, side] };
    let pass = ForkInfoWithDep::new(3);
    let report = pass.report_for_entry(&module, "side");
    assert_eq!(
        report,
        vec![
            "function: helper".to_string(),
            "file.c:10:3".to_string(),
            "function: side".to_string(),
            "b.c:4:1".to_string()
        ]
    );
    let unknown = pass.report_for_entry(&module, "absent");
    assert!(unknown.is_empty());
}
