use klee_analysis::ir::DebugLocation;
use klee_analysis::ir::DebugScope;
use klee_analysis::ir::FileDescriptor;
use klee_analysis::ir::Instruction;
use klee_analysis::ir::Opcode;
use klee_analysis::src_loc::SourceLocation;
use klee_analysis::text::str_is_prefix;
use klee_analysis::text::u64_to_dec;
use klee_analysis::text::usize_to_dec;

fn br(num_operands: u32, debug_loc: Option<DebugLocation>) -> Instruction {
    Instruction { opcode: Opcode::Br, num_operands, debug_loc, callee: None }
}

fn full_loc(dir: &str, file: &str, line: u32, column: u32) -> DebugLocation {
    DebugLocation {
        scope: Some(DebugScope {
            file: Some(FileDescriptor {
                directory: dir.to_string(),
                filename: file.to_string(),
            }),
        }),
        line,
        column,
    }
}

#[test]
fn resolver_complete_metadata() {
    let i = br(3, Some(full_loc("/src", "main.c", 10, 3)));
    let loc = SourceLocation::from_instruction(&i).unwrap();
    assert_eq!(loc.filepath(), "/src/main.c");
    assert_eq!(loc.line(), 10);
    assert_eq!(loc.column(), 3);
    assert_eq!(loc.render(), "/src/main.c:10:3");
}

#[test]
fn resolver_empty_directory_uses_filename() {
    let i = br(3, Some(full_loc("", "main.c", 7, 0)));
    let loc = SourceLocation::from_instruction(&i).unwrap();
    assert_eq!(loc.filepath(), "main.c");
    assert_eq!(loc.column(), 0);
}

#[test]
fn resolver_join_edge_cases() {
    let trailing = br(2, Some(full_loc("/src/", "a.c", 1, 1)));
    assert_eq!(
        SourceLocation::from_instruction(&trailing).unwrap().filepath(),
        "/src/a.c"
    );
    let absolute = br(2, Some(full_loc("/src", "/abs/a.c", 1, 1)));
    assert_eq!(
        SourceLocation::from_instruction(&absolute).unwrap().filepath(),
        "/abs/a.c"
    );
    let dir_only = br(2, Some(full_loc("/src", "", 1, 1)));
    assert_eq!(SourceLocation::from_instruction(&dir_only).unwrap().filepath(), "/src/");
}

#[test]
fn resolver_missing_metadata() {
    let no_loc = br(3, None);
    assert!(SourceLocation::from_instruction(&no_loc).is_none());

    let no_scope = br(3, Some(DebugLocation { scope: None, line: 1, column: 1 }));
    assert!(SourceLocation::from_instruction(&no_scope).is_none());

    let no_file = br(
        3,
        Some(DebugLocation { scope: Some(DebugScope { file: None }), line: 1, column: 1 }),
    );
    assert!(SourceLocation::from_instruction(&no_file).is_none());

    let empty_both = br(3, Some(full_loc("", "", 1, 1)));
    assert!(SourceLocation::from_instruction(&empty_both).is_none());
}

#[test]
fn decimal_rendering() {
    assert_eq!(u64_to_dec(0), "0");
    assert_eq!(u64_to_dec(7), "7");
    assert_eq!(u64_to_dec(10), "10");
    assert_eq!(u64_to_dec(907), "907");
    assert_eq!(u64_to_dec(4294967295), "4294967295");
    assert_eq!(usize_to_dec(123456), "123456");
}

#[test]
fn prefix_test() {
    assert!(str_is_prefix("llvm", "llvm.dbg.value"));
    assert!(str_is_prefix("", "anything"));
    assert!(str_is_prefix("__", "__assert_fail"));
    assert!(!str_is_prefix("llvm", "llv"));
    assert!(!str_is_prefix("llvm", "mllvm"));
}
