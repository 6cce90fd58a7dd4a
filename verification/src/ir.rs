//! A plain-value model of the program representation the analyses read.
//!
//! The host compiler hands the analyses a stream of functions, each a list of
//! basic blocks, each a list of instructions. Of an instruction the analyses
//! read only four things: its opcode class, its operand count, its optional
//! debug location (reachable through scope and file descriptor), and — for
//! call-like instructions — the statically known callee, when there is one.
//! These types hold exactly that, as plain values, so the logic over them can
//! be verified; the host-facing glue converts its native values into them.

use vstd::prelude::*;

verus! {

/// The opcode classes the analyses distinguish. `Br` is a branch (conditional
/// or not), `Switch` a multi-way switch, `Call` a direct call instruction,
/// `Invoke` an exception-aware call; everything else is `Other`.
#[derive(Clone, Copy, Debug, PartialEq, Eq, Structural)]
pub enum Opcode {
    Br,
    Switch,
    Call,
    Invoke,
    Other,
}

/// The file descriptor a lexical scope points at: a directory and a file
/// name, as the debug tables give them. Either string may be empty; a
/// descriptor whose strings are both empty carries no usable path.
#[derive(Clone, Debug, PartialEq, Eq)]
pub struct FileDescriptor {
    pub directory: String,
    pub filename: String,
}

/// The lexical scope a debug location points at; its file descriptor may be
/// absent (stripped or synthetic scopes).
#[derive(Clone, Debug, PartialEq, Eq)]
pub struct DebugScope {
    pub file: Option<FileDescriptor>,
}

/// A debug location attached to an instruction: a line, a column (0 meaning
/// "unknown column", still a valid value), and an optional enclosing scope.
#[derive(Clone, Debug, PartialEq, Eq)]
pub struct DebugLocation {
    pub scope: Option<DebugScope>,
    pub line: u32,
    pub column: u32,
}

/// One instruction, reduced to what the analyses read. `callee` is the name
/// of the statically known called function for call-like instructions; it is
/// `None` for indirect calls, inline assembly, calls with no resolvable
/// operand, and every non-call instruction.
#[derive(Clone, Debug, PartialEq, Eq)]
pub struct Instruction {
    pub opcode: Opcode,
    pub num_operands: u32,
    pub debug_loc: Option<DebugLocation>,
    pub callee: Option<String>,
}

/// A basic block: an ordered list of instructions.
#[derive(Clone, Debug, PartialEq, Eq)]
pub struct BasicBlock {
    pub instructions: Vec<Instruction>,
}

/// A function: a stable name and an ordered list of basic blocks.
#[derive(Clone, Debug, PartialEq, Eq)]
pub struct Function {
    pub name: String,
    pub blocks: Vec<BasicBlock>,
}

/// A whole program: an ordered list of functions.
#[derive(Clone, Debug, PartialEq, Eq)]
pub struct Module {
    pub functions: Vec<Function>,
}

/// The instruction stream of a sequence of basic blocks, in container order.
pub open spec fn insts_of_blocks(blocks: Seq<BasicBlock>) -> Seq<Instruction>
    decreases blocks.len(),
{
    if blocks.len() == 0 {
        Seq::empty()
    } else {
        insts_of_blocks(blocks.drop_last()) + blocks.last().instructions@
    }
}

/// The instruction stream of a whole function, blocks in container order.
pub open spec fn function_insts(f: Function) -> Seq<Instruction> {
    insts_of_blocks(f.blocks@)
}

/// An instruction is a fork point when it is a branch or a switch with more
/// than one operand: a conditional branch carries a condition and two
/// targets, a switch a value, a default and its cases, while an unconditional
/// single-target branch carries exactly one operand.
pub open spec fn is_fork(i: Instruction) -> bool {
    (i.opcode == Opcode::Br || i.opcode == Opcode::Switch) && i.num_operands > 1
}

/// The statically known callee name of an instruction: present only for
/// call-like opcodes whose called operand is a plain function.
pub open spec fn static_callee(i: Instruction) -> Option<Seq<char>> {
    if i.opcode == Opcode::Call || i.opcode == Opcode::Invoke {
        match i.callee {
            Some(name) => Some(name@),
            None => None,
        }
    } else {
        None
    }
}

/// The instruction stream of one more block is the stream so far followed by
/// that block's instructions.
pub proof fn lemma_insts_take_step(blocks: Seq<BasicBlock>, bi: int)
    requires
        0 <= bi < blocks.len(),
    ensures
        insts_of_blocks(blocks.take(bi + 1)) == insts_of_blocks(blocks.take(bi))
            + blocks[bi].instructions@,
{
    assert(blocks.take(bi + 1).drop_last() =~= blocks.take(bi));
    assert(blocks.take(bi + 1).last() == blocks[bi]);
}

/// The instruction stream splits at any block boundary.
pub proof fn lemma_insts_split(blocks: Seq<BasicBlock>, bi: int)
    requires
        0 <= bi <= blocks.len(),
    ensures
        insts_of_blocks(blocks) == insts_of_blocks(blocks.take(bi)) + insts_of_blocks(
            blocks.skip(bi),
        ),
    decreases blocks.len(),
{
    if bi == blocks.len() {
        assert(blocks.take(bi) =~= blocks);
        assert(blocks.skip(bi) =~= Seq::<BasicBlock>::empty());
        assert(insts_of_blocks(blocks.take(bi)) + insts_of_blocks(blocks.skip(bi))
            =~= insts_of_blocks(blocks));
    } else {
        let bdl = blocks.drop_last();
        lemma_insts_split(bdl, bi);
        assert(bdl.take(bi) =~= blocks.take(bi));
        assert(blocks.skip(bi).drop_last() =~= bdl.skip(bi));
        assert(blocks.skip(bi).last() == blocks.last());
        assert(insts_of_blocks(blocks) =~= insts_of_blocks(blocks.take(bi)) + insts_of_blocks(
            blocks.skip(bi),
        ));
    }
}

} // verus!
