//! The reporting passes around the analyses. The textual lines are computed
//! here with exact contracts; putting them on a terminal is the host glue's
//! business.

use crate::analysis::CallGraphAnalysis;
use crate::analysis::ForkInstAnalysis;
use crate::analysis::fork_points;
use crate::analysis::graph_of_functions;
use crate::call_graph::CallGraph;
use crate::call_graph::GraphView;
use crate::call_graph::default_excluded_prefixes;
use crate::call_graph::names_of;
use crate::call_graph::reachable_within;
use crate::ir::Function;
use crate::ir::Module;
use crate::ir::function_insts;
use crate::src_loc::loc_views;
use crate::src_loc::rendered_locs;
use crate::text::dec_rep;
use crate::text::usize_to_dec;
use vstd::prelude::*;
use vstd::string::StringExecFns;

verus! {

/// Whether `name` occurs among `names`.
fn contains_name(names: &Vec<String>, name: &String) -> (r: bool)
    ensures
        r == names_of(names@).contains(name@),
{
    let mut j: usize = 0;
    while j < names.len()
        invariant
            j <= names.len(),
            forall|k: int| 0 <= k < j ==> names_of(names@)[k] != name@,
        decreases names.len() - j,
    {
        if names[j].eq(name) {
            proof {
                assert(names_of(names@)[j as int] == name@);
            }
            return true;
        }
        j += 1;
    }
    false
}

/// The lines the per-function printer emits: a header naming the function
/// and its fork-point count, then one rendered location per line.
pub open spec fn printer_lines_spec(f: Function) -> Seq<Seq<char>> {
    seq![
        "Function '"@ + f.name@ + "' has "@ + dec_rep(fork_points(function_insts(f)).len())
            + " fork instruction(s):"@,
    ] + rendered_locs(fork_points(function_insts(f)))
}

/// The pass that reports every function's fork points, reachable or not.
pub struct ForkInfoPrinter;

impl ForkInfoPrinter {
    /// The printer's lines for one function.
    pub fn run_pass(&self, func: &Function) -> (r: Vec<String>)
        ensures
            names_of(r@) == printer_lines_spec(*func),
    {
        let analysis = ForkInstAnalysis;
        let locations = analysis.run_analysis(func);
        let mut lines: Vec<String> = Vec::new();
        let mut header = "Function '".to_owned();
        header.append(func.name.as_str());
        header.append("' has ");
        let count = usize_to_dec(locations.len());
        header.append(count.as_str());
        header.append(" fork instruction(s):");
        lines.push(header);
        proof {
            assert(names_of(lines@) =~= printer_lines_spec(*func).take(1));
        }
        let mut i: usize = 0;
        while i < locations.len()
            invariant
                i <= locations.len(),
                loc_views(locations@) == fork_points(function_insts(*func)),
                names_of(lines@) == printer_lines_spec(*func).take(i as int + 1),
            decreases locations.len() - i,
        {
            let line = locations[i].render();
            let ghost ls0 = lines@;
            lines.push(line);
            proof {
                assert(names_of(lines@) =~= names_of(ls0).push(line@));
                assert(locations@[i as int]@ == fork_points(function_insts(*func))[i as int]);
                assert(printer_lines_spec(*func)[i as int + 1] == rendered_locs(
                    fork_points(function_insts(*func)),
                )[i as int]);
                assert(printer_lines_spec(*func).take(i as int + 2) =~= printer_lines_spec(
                    *func,
                ).take(i as int + 1).push(line@));
            }
            i += 1;
        }
        proof {
            assert(printer_lines_spec(*func).take(locations@.len() as int + 1)
                =~= printer_lines_spec(*func));
        }
        lines
    }
}

/// One node of the graph, described.
pub open spec fn node_line_spec(n: Seq<char>) -> Seq<char> {
    "node: "@ + n
}

/// One edge of the graph, described.
pub open spec fn edge_line_spec(e: (Seq<char>, Seq<char>)) -> Seq<char> {
    "edge: "@ + e.0 + " -> "@ + e.1
}

/// The pass that reports the whole call graph.
pub struct CallGraphPrinter;

impl CallGraphPrinter {
    /// Describe the graph: one line per node, then one per edge, in
    /// insertion order.
    pub fn run_pass(&self, graph: &CallGraph) -> (r: Vec<String>)
        requires
            graph.wf(),
        ensures
            r@.len() == graph@.nodes.len() + graph@.edges.len(),
            forall|k: int|
                0 <= k < graph@.nodes.len() ==> (#[trigger] r@[k])@ == node_line_spec(
                    graph@.nodes[k],
                ),
            forall|k: int|
                0 <= k < graph@.edges.len() ==> (#[trigger] r@[graph@.nodes.len() + k])@
                    == edge_line_spec(graph@.edges[k]),
    {
        let mut lines: Vec<String> = Vec::new();
        let nc = graph.node_count();
        let mut i: usize = 0;
        while i < nc
            invariant
                i <= nc,
                nc == graph@.nodes.len(),
                lines@.len() == i,
                forall|k: int|
                    0 <= k < i ==> (#[trigger] lines@[k])@ == node_line_spec(graph@.nodes[k]),
            decreases nc - i,
        {
            let mut line = "node: ".to_owned();
            line.append(graph.node_name(i).as_str());
            lines.push(line);
            i += 1;
        }
        let ec = graph.edge_count();
        let mut e: usize = 0;
        while e < ec
            invariant
                e <= ec,
                ec == graph@.edges.len(),
                nc == graph@.nodes.len(),
                lines@.len() == nc + e,
                forall|k: int|
                    0 <= k < nc ==> (#[trigger] lines@[k])@ == node_line_spec(graph@.nodes[k]),
                forall|k: int|
                    0 <= k < e ==> (#[trigger] lines@[nc as int + k])@ == edge_line_spec(
                        graph@.edges[k],
                    ),
            decreases ec - e,
        {
            match graph.edge_endpoints(e) {
                Some(p) => {
                    let mut line = "edge: ".to_owned();
                    line.append(graph.node_name(p.0).as_str());
                    line.append(" -> ");
                    line.append(graph.node_name(p.1).as_str());
                    lines.push(line);
                },
                None => {
                    proof {
                        assert(false);
                    }
                },
            }
            e += 1;
        }
        lines
    }
}

/// The report lines for one function: a `function: <name>` header and its
/// rendered fork points; nothing when it has none.
pub open spec fn function_report_spec(f: Function) -> Seq<Seq<char>> {
    if fork_points(function_insts(f)).len() == 0 {
        Seq::empty()
    } else {
        seq!["function: "@ + f.name@] + rendered_locs(fork_points(function_insts(f)))
    }
}

/// The whole report: for each function of the module, in order, its report
/// lines when its name is selected, nothing otherwise.
pub open spec fn report_lines_spec(funcs: Seq<Function>, selected: Set<Seq<char>>) -> Seq<Seq<char>>
    decreases funcs.len(),
{
    if funcs.len() == 0 {
        Seq::empty()
    } else {
        report_lines_spec(funcs.drop_last(), selected) + (if selected.contains(
            funcs.last().name@,
        ) {
            function_report_spec(funcs.last())
        } else {
            Seq::empty()
        })
    }
}

/// The depth-bounded fork-point report pass: a bounded reachability query
/// from an entry point restricts which functions' fork points are reported.
pub struct ForkInfoWithDep {
    depth: usize,
}

impl ForkInfoWithDep {
    /// The configured depth bound.
    pub closed spec fn spec_depth(self) -> usize {
        self.depth
    }

    /// A report pass with the given depth bound.
    pub fn new(depth: usize) -> (r: ForkInfoWithDep)
        ensures
            r.spec_depth() == depth,
    {
        ForkInfoWithDep { depth }
    }

    /// The report for `module` from the entry point `entry`: build the call
    /// graph, query the names within the depth bound of `entry`, and emit
    /// each selected function's non-empty fork-point lines, in module
    /// order; functions outside the reachable set are never queried. The
    /// bounds are machine limits of the u32-indexed graph.
    pub fn report_for_entry(&self, module: &Module, entry: &str) -> (r: Vec<String>)
        requires
            graph_of_functions(
                module.functions@,
                default_excluded_prefixes(),
            ).nodes.len() <= 0xFFFF_FFFF,
            graph_of_functions(
                module.functions@,
                default_excluded_prefixes(),
            ).edges.len() <= 0xFFFF_FFFF,
        ensures
            names_of(r@) == report_lines_spec(
                module.functions@,
                reachable_within(
                    graph_of_functions(module.functions@, default_excluded_prefixes()),
                    entry@,
                    self.spec_depth() as nat,
                ),
            ),
    {
        let graph_analysis = CallGraphAnalysis;
        let call_graph = graph_analysis.run_analysis(module);
        let selected = call_graph.find_callees_within_depth(entry, self.depth);
        let ghost sel_set = reachable_within(
            graph_of_functions(module.functions@, default_excluded_prefixes()),
            entry@,
            self.spec_depth() as nat,
        );
        proof {
            assert(names_of(selected@).to_set() == sel_set);
        }
        let fork_analysis = ForkInstAnalysis;
        let mut lines: Vec<String> = Vec::new();
        proof {
            assert(names_of(lines@) =~= report_lines_spec(module.functions@.take(0), sel_set));
        }
        let mut fi: usize = 0;
        while fi < module.functions.len()
            invariant
                fi <= module.functions.len(),
                names_of(selected@).to_set() == sel_set,
                names_of(lines@) == report_lines_spec(module.functions@.take(fi as int), sel_set),
            decreases module.functions.len() - fi,
        {
            let func = &module.functions[fi];
            proof {
                assert(module.functions@.take(fi as int + 1).drop_last() =~= module.functions@.take(
                    fi as int,
                ));
                assert(module.functions@.take(fi as int + 1).last() == *func);
            }
            if contains_name(&selected, &func.name) {
                proof {
                    assert(sel_set.contains(func.name@));
                }
                let locations = fork_analysis.run_analysis(func);
                if locations.len() > 0 {
                    let mut header = "function: ".to_owned();
                    header.append(func.name.as_str());
                    let ghost ls0 = lines@;
                    lines.push(header);
                    proof {
                        assert(names_of(lines@) =~= names_of(ls0).push(
                            "function: "@ + func.name@,
                        ));
                    }
                    let mut li: usize = 0;
                    while li < locations.len()
                        invariant
                            li <= locations.len(),
                            loc_views(locations@) == fork_points(function_insts(*func)),
                            names_of(lines@) == report_lines_spec(
                                module.functions@.take(fi as int),
                                sel_set,
                            ) + seq!["function: "@ + func.name@] + rendered_locs(
                                fork_points(function_insts(*func)),
                            ).take(li as int),
                        decreases locations.len() - li,
                    {
                        let line = locations[li].render();
                        let ghost ls1 = lines@;
                        lines.push(line);
                        proof {
                            assert(names_of(lines@) =~= names_of(ls1).push(line@));
                            assert(locations@[li as int]@ == fork_points(
                                function_insts(*func),
                            )[li as int]);
                            assert(rendered_locs(fork_points(function_insts(*func))).take(
                                li as int + 1,
                            ) =~= rendered_locs(fork_points(function_insts(*func))).take(
                                li as int,
                            ).push(line@));
                            assert(names_of(lines@) =~= report_lines_spec(
                                module.functions@.take(fi as int),
                                sel_set,
                            ) + seq!["function: "@ + func.name@] + rendered_locs(
                                fork_points(function_insts(*func)),
                            ).take(li as int + 1));
                        }
                        li += 1;
                    }
                    proof {
                        assert(rendered_locs(fork_points(function_insts(*func))).take(
                            locations@.len() as int,
                        ) =~= rendered_locs(fork_points(function_insts(*func))));
                        assert(fork_points(function_insts(*func)).len() > 0);
                        assert(names_of(lines@) =~= report_lines_spec(
                            module.functions@.take(fi as int + 1),
                            sel_set,
                        ));
                    }
                } else {
                    proof {
                        assert(fork_points(function_insts(*func)).len() == 0);
                        assert(function_report_spec(*func) =~= Seq::<Seq<char>>::empty());
                        assert(names_of(lines@) =~= report_lines_spec(
                            module.functions@.take(fi as int + 1),
                            sel_set,
                        ));
                    }
                }
            } else {
                proof {
                    assert(!sel_set.contains(func.name@));
                    assert(names_of(lines@) =~= report_lines_spec(
                        module.functions@.take(fi as int + 1),
                        sel_set,
                    ));
                }
            }
            fi += 1;
        }
        proof {
            assert(module.functions@.take(module.functions@.len() as int) =~= module.functions@);
        }
        lines
    }

    /// The report from the program's `main` entry point.
    pub fn run_pass(&self, module: &Module) -> (r: Vec<String>)
        requires
            graph_of_functions(
                module.functions@,
                default_excluded_prefixes(),
            ).nodes.len() <= 0xFFFF_FFFF,
            graph_of_functions(
                module.functions@,
                default_excluded_prefixes(),
            ).edges.len() <= 0xFFFF_FFFF,
        ensures
            names_of(r@) == report_lines_spec(
                module.functions@,
                reachable_within(
                    graph_of_functions(module.functions@, default_excluded_prefixes()),
                    "main"@,
                    self.spec_depth() as nat,
                ),
            ),
    {
        self.report_for_entry(module, "main")
    }
}

} // verus!
