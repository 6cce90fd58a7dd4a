//! The two analyses the host framework invokes: the per-function fork-point
//! collector and the whole-program call-graph builder.

use crate::call_graph::CallGraph;
use crate::call_graph::GraphView;
use crate::call_graph::default_excluded_prefixes;
use crate::call_graph::lemma_record_calls_grows;
use crate::call_graph::record_calls_spec;
use crate::call_graph::recorded_callees;
use crate::ir::Function;
use crate::ir::Instruction;
use crate::ir::Module;
use crate::ir::Opcode;
use crate::ir::function_insts;
use crate::ir::insts_of_blocks;
use crate::ir::is_fork;
use crate::ir::lemma_insts_take_step;
use crate::src_loc::LocationModel;
use crate::src_loc::SourceLocation;
use crate::src_loc::loc_views;
use crate::src_loc::resolve_spec;
use vstd::prelude::*;

verus! {

/// The fork points of an instruction stream: the source location of each
/// branch-or-switch instruction with more than one operand whose debug
/// metadata resolves, in stream order, duplicates kept.
pub open spec fn fork_points(insts: Seq<Instruction>) -> Seq<LocationModel>
    decreases insts.len(),
{
    if insts.len() == 0 {
        Seq::empty()
    } else {
        let rest = fork_points(insts.drop_last());
        if is_fork(insts.last()) {
            match resolve_spec(insts.last()) {
                Some(l) => rest.push(l),
                None => rest,
            }
        } else {
            rest
        }
    }
}

/// The per-function fork-point analysis: reentrant, read-only, one owned
/// result per function, cached by the host framework.
pub struct ForkInstAnalysis;

impl ForkInstAnalysis {
    /// Scan every instruction of `func`, blocks in container order, and
    /// collect the source location of each fork point whose debug metadata
    /// resolves; locations without metadata are silently dropped.
    pub fn run_analysis(&self, func: &Function) -> (r: Vec<SourceLocation>)
        ensures
            loc_views(r@) == fork_points(function_insts(*func)),
    {
        let mut locations: Vec<SourceLocation> = Vec::new();
        proof {
            assert(loc_views(locations@) =~= fork_points(
                insts_of_blocks(func.blocks@.take(0)),
            ));
        }
        let mut bi: usize = 0;
        while bi < func.blocks.len()
            invariant
                bi <= func.blocks.len(),
                loc_views(locations@) == fork_points(insts_of_blocks(func.blocks@.take(bi as int))),
            decreases func.blocks.len() - bi,
        {
            let ghost done_blocks = insts_of_blocks(func.blocks@.take(bi as int));
            let bb = &func.blocks[bi];
            let mut ii: usize = 0;
            while ii < bb.instructions.len()
                invariant
                    ii <= bb.instructions.len(),
                    loc_views(locations@) == fork_points(
                        done_blocks + bb.instructions@.take(ii as int),
                    ),
                decreases bb.instructions.len() - ii,
            {
                let inst = &bb.instructions[ii];
                let ghost processed = done_blocks + bb.instructions@.take(ii as int);
                proof {
                    assert(done_blocks + bb.instructions@.take(ii as int + 1) =~= processed.push(
                        *inst,
                    ));
                    assert(processed.push(*inst).drop_last() =~= processed);
                }
                if (inst.opcode == Opcode::Br || inst.opcode == Opcode::Switch)
                    && inst.num_operands > 1 {
                    match SourceLocation::from_instruction(inst) {
                        Some(loc) => {
                            let ghost os0 = locations@;
                            locations.push(loc);
                            proof {
                                assert(loc_views(locations@) =~= loc_views(os0).push(loc@));
                            }
                        },
                        None => {
                            proof {
                                assert(resolve_spec(*inst) is None);
                            }
                        },
                    }
                } else {
                    proof {
                        assert(!is_fork(*inst));
                    }
                }
                ii += 1;
            }
            proof {
                lemma_insts_take_step(func.blocks@, bi as int);
                assert(bb.instructions@.take(bb.instructions@.len() as int) =~= bb.instructions@);
            }
            bi += 1;
        }
        proof {
            assert(func.blocks@.take(func.blocks@.len() as int) =~= func.blocks@);
        }
        locations
    }
}

/// Law: every reported fork point comes from a fork instruction — a branch
/// or switch with more than one operand — whose metadata resolves to exactly
/// that location; unconditional single-target branches and metadata-less
/// instructions never contribute.
pub proof fn lemma_fork_points_sound(insts: Seq<Instruction>, k: int)
    requires
        0 <= k < fork_points(insts).len(),
    ensures
        exists|j: int|
            0 <= j < insts.len() && is_fork(#[trigger] insts[j]) && resolve_spec(insts[j]) == Some(
                fork_points(insts)[k],
            ),
    decreases insts.len(),
{
    if insts.len() == 0 {
    } else {
        let rest = fork_points(insts.drop_last());
        if k < rest.len() {
            lemma_fork_points_sound(insts.drop_last(), k);
            let j = choose|j: int|
                0 <= j < insts.drop_last().len() && is_fork(#[trigger] insts.drop_last()[j])
                    && resolve_spec(insts.drop_last()[j]) == Some(rest[k]);
            assert(insts[j] == insts.drop_last()[j]);
            assert(fork_points(insts)[k] == rest[k]);
        } else {
            assert(is_fork(insts.last()));
            assert(insts[insts.len() - 1] == insts.last());
            assert(resolve_spec(insts.last()) == Some(fork_points(insts)[k]));
        }
    }
}

/// Law: every fork instruction whose metadata resolves is reported.
pub proof fn lemma_fork_points_complete(insts: Seq<Instruction>, j: int, l: LocationModel)
    requires
        0 <= j < insts.len(),
        is_fork(insts[j]),
        resolve_spec(insts[j]) == Some(l),
    ensures
        fork_points(insts).contains(l),
    decreases insts.len(),
{
    let rest = fork_points(insts.drop_last());
    if j == insts.len() - 1 {
        assert(fork_points(insts)[rest.len() as int] == l);
    } else {
        assert(insts.drop_last()[j] == insts[j]);
        lemma_fork_points_complete(insts.drop_last(), j, l);
        let i = choose|i: int| 0 <= i < rest.len() && rest[i] == l;
        assert(fork_points(insts)[i] == l);
    }
}

/// The graph the builder accumulates over a sequence of functions, in
/// order, starting from the empty graph.
pub open spec fn graph_of_functions(funcs: Seq<Function>, prefixes: Seq<Seq<char>>) -> GraphView
    decreases funcs.len(),
{
    if funcs.len() == 0 {
        GraphView { nodes: Seq::empty(), edges: Seq::empty() }
    } else {
        record_calls_spec(
            graph_of_functions(funcs.drop_last(), prefixes),
            funcs.last().name@,
            recorded_callees(function_insts(funcs.last()), prefixes),
        )
    }
}

/// Building over a prefix of the functions yields a graph no larger than
/// building over them all.
pub proof fn lemma_graph_of_functions_prefix(funcs: Seq<Function>, prefixes: Seq<Seq<char>>, i: int)
    requires
        0 <= i <= funcs.len(),
    ensures
        graph_of_functions(funcs.take(i), prefixes).nodes.len() <= graph_of_functions(
            funcs,
            prefixes,
        ).nodes.len(),
        graph_of_functions(funcs.take(i), prefixes).edges.len() <= graph_of_functions(
            funcs,
            prefixes,
        ).edges.len(),
    decreases funcs.len(),
{
    if i == funcs.len() {
        assert(funcs.take(i) =~= funcs);
    } else {
        assert(funcs.drop_last().take(i) =~= funcs.take(i));
        lemma_graph_of_functions_prefix(funcs.drop_last(), prefixes, i);
        lemma_record_calls_grows(
            graph_of_functions(funcs.drop_last(), prefixes),
            funcs.last().name@,
            recorded_callees(function_insts(funcs.last()), prefixes),
        );
    }
}

/// The whole-program call-graph analysis: one sequential module-level pass.
pub struct CallGraphAnalysis;

impl CallGraphAnalysis {
    /// Build the whole-program call graph by recording each function's
    /// statically resolvable calls, in module order, into one shared graph
    /// with the default exclusion policy. The bounds are machine limits of
    /// the u32-indexed graph.
    pub fn run_analysis(&self, module: &Module) -> (g: CallGraph)
        requires
            graph_of_functions(
                module.functions@,
                default_excluded_prefixes(),
            ).nodes.len() <= 0xFFFF_FFFF,
            graph_of_functions(
                module.functions@,
                default_excluded_prefixes(),
            ).edges.len() <= 0xFFFF_FFFF,
        ensures
            g.wf(),
            g@ == graph_of_functions(module.functions@, default_excluded_prefixes()),
            g.excluded() == default_excluded_prefixes(),
    {
        let mut graph = CallGraph::new();
        proof {
            assert(graph@ =~= graph_of_functions(
                module.functions@.take(0),
                default_excluded_prefixes(),
            ));
        }
        let mut fi: usize = 0;
        while fi < module.functions.len()
            invariant
                fi <= module.functions.len(),
                graph.wf(),
                graph.excluded() == default_excluded_prefixes(),
                graph@ == graph_of_functions(
                    module.functions@.take(fi as int),
                    default_excluded_prefixes(),
                ),
            decreases module.functions.len() - fi,
        {
            let func = &module.functions[fi];
            proof {
                assert(module.functions@.take(fi as int + 1).drop_last() =~= module.functions@.take(
                    fi as int,
                ));
                assert(module.functions@.take(fi as int + 1).last() == *func);
                lemma_graph_of_functions_prefix(
                    module.functions@,
                    default_excluded_prefixes(),
                    fi as int + 1,
                );
                assert(record_calls_spec(
                    graph@,
                    func.name@,
                    recorded_callees(function_insts(*func), graph.excluded()),
                ) == graph_of_functions(
                    module.functions@.take(fi as int + 1),
                    default_excluded_prefixes(),
                ));
            }
            graph.add_callees_from_function(func);
            fi += 1;
        }
        proof {
            assert(module.functions@.take(module.functions@.len() as int) =~= module.functions@);
        }
        graph
    }
}

} // verus!
