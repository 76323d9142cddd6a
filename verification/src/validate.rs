//! Graph validation: link endpoints and path steps that name no segment
//! are collected as errors, segments with an empty or placeholder
//! sequence as warnings.  Validation never fails and never blocks other
//! computation over the same graph — every issue is merely reported.

use crate::gfa::{seg_named, GfaGraph, GraphV};
use crate::text::{bytes_to_vec, find_index};
use vstd::prelude::*;

verus! {

/// Whether the graph holds a segment of this name.
pub open spec fn seg_defined(g: GraphV, name: Seq<u8>) -> bool {
    0 <= find_index(g.segments, seg_named(name))
}

/// An inconsistency that validation reports as an error.
#[derive(Debug, Clone)]
pub enum ValidationIssue {
    /// A link endpoint naming no segment.
    UndefinedLinkSegment { name: Vec<u8> },
    /// A path step naming no segment.
    UndefinedPathSegment { path: Vec<u8>, name: Vec<u8> },
}

/// Specification model of a [`ValidationIssue`].
pub enum IssueV {
    UndefinedLinkSegment { name: Seq<u8> },
    UndefinedPathSegment { path: Seq<u8>, name: Seq<u8> },
}

impl View for ValidationIssue {
    type V = IssueV;

    open spec fn view(&self) -> IssueV {
        match self {
            ValidationIssue::UndefinedLinkSegment { name } => IssueV::UndefinedLinkSegment {
                name: name@,
            },
            ValidationIssue::UndefinedPathSegment { path, name } => IssueV::UndefinedPathSegment {
                path: path@,
                name: name@,
            },
        }
    }
}

impl DeepView for ValidationIssue {
    type V = IssueV;

    open spec fn deep_view(&self) -> IssueV {
        self.view()
    }
}

/// A blemish that validation reports as a warning.
#[derive(Debug, Clone)]
pub enum ValidationWarning {
    /// A segment whose sequence is empty or the placeholder `*`.
    EmptySequence { name: Vec<u8> },
}

/// Specification model of a [`ValidationWarning`].
pub enum WarnV {
    EmptySequence { name: Seq<u8> },
}

impl View for ValidationWarning {
    type V = WarnV;

    open spec fn view(&self) -> WarnV {
        match self {
            ValidationWarning::EmptySequence { name } => WarnV::EmptySequence { name: name@ },
        }
    }
}

impl DeepView for ValidationWarning {
    type V = WarnV;

    open spec fn deep_view(&self) -> WarnV {
        self.view()
    }
}

/// The errors of the links from position `i` on: one per endpoint naming
/// no segment, the `from` side first.
pub open spec fn spec_link_issues(g: GraphV, i: int, acc: Seq<IssueV>) -> Seq<IssueV>
    decreases g.links.len() - i,
{
    if i < 0 || i >= g.links.len() {
        acc
    } else {
        let a1 = if !seg_defined(g, g.links[i].from_segment) {
            acc.push(IssueV::UndefinedLinkSegment { name: g.links[i].from_segment })
        } else {
            acc
        };
        let a2 = if !seg_defined(g, g.links[i].to_segment) {
            a1.push(IssueV::UndefinedLinkSegment { name: g.links[i].to_segment })
        } else {
            a1
        };
        spec_link_issues(g, i + 1, a2)
    }
}

/// The errors of one path's steps from position `j` on: one per step
/// naming no segment.
pub open spec fn spec_step_issues(
    g: GraphV,
    pname: Seq<u8>,
    steps: Seq<crate::gfa::StepV>,
    j: int,
    acc: Seq<IssueV>,
) -> Seq<IssueV>
    decreases steps.len() - j,
{
    if j < 0 || j >= steps.len() {
        acc
    } else {
        let a1 = if !seg_defined(g, steps[j].segment) {
            acc.push(IssueV::UndefinedPathSegment { path: pname, name: steps[j].segment })
        } else {
            acc
        };
        spec_step_issues(g, pname, steps, j + 1, a1)
    }
}

/// The errors of the paths from position `i` on.
pub open spec fn spec_path_issues(g: GraphV, i: int, acc: Seq<IssueV>) -> Seq<IssueV>
    decreases g.paths.len() - i,
{
    if i < 0 || i >= g.paths.len() {
        acc
    } else {
        spec_path_issues(
            g,
            i + 1,
            spec_step_issues(g, g.paths[i].name, g.paths[i].steps, 0, acc),
        )
    }
}

/// All errors of a graph: link endpoints first, then path steps, in
/// source order.
pub open spec fn spec_issues(g: GraphV) -> Seq<IssueV> {
    spec_path_issues(g, 0, spec_link_issues(g, 0, Seq::empty()))
}

/// Whether a sequence is empty or the single placeholder byte `*`.
pub open spec fn seq_blank(s: Seq<u8>) -> bool {
    s.len() == 0 || s == seq![42u8]
}

/// The warnings of the segments from position `i` on: one per empty or
/// placeholder sequence.
pub open spec fn spec_warnings_fold(g: GraphV, i: int, acc: Seq<WarnV>) -> Seq<WarnV>
    decreases g.segments.len() - i,
{
    if i < 0 || i >= g.segments.len() {
        acc
    } else {
        let a1 = if seq_blank(g.segments[i].sequence) {
            acc.push(WarnV::EmptySequence { name: g.segments[i].name })
        } else {
            acc
        };
        spec_warnings_fold(g, i + 1, a1)
    }
}

/// All warnings of a graph, in segment order.
pub open spec fn spec_warnings(g: GraphV) -> Seq<WarnV> {
    spec_warnings_fold(g, 0, Seq::empty())
}

/// Checks a graph for inconsistencies: every link endpoint and path step
/// that names no segment yields one error, every empty or placeholder
/// segment sequence one warning.  Nothing fails: the report is returned
/// whole, and the graph stays as usable as before.
pub fn validate_graph(graph: &GfaGraph) -> (r: (Vec<ValidationIssue>, Vec<ValidationWarning>))
    ensures
        r.0.deep_view() == spec_issues(graph@),
        r.1.deep_view() == spec_warnings(graph@),
{
    let mut issues: Vec<ValidationIssue> = Vec::new();
    proof {
        assert(issues.deep_view() =~= Seq::<IssueV>::empty());
    }
    let ln = graph.links.len();
    let mut i: usize = 0;
    while i < ln
        invariant
            0 <= i <= ln,
            ln == graph.links@.len(),
            spec_link_issues(graph@, 0, Seq::empty()) == spec_link_issues(
                graph@,
                i as int,
                issues.deep_view(),
            ),
        decreases ln - i,
    {
        let link = &graph.links[i];
        proof {
            assert(graph@.links[i as int] == graph.links@[i as int]@);
        }
        if graph.get_segment(link.from_segment.as_slice()).is_none() {
            let ghost prev = issues.deep_view();
            issues.push(
                ValidationIssue::UndefinedLinkSegment {
                    name: bytes_to_vec(link.from_segment.as_slice()),
                },
            );
            proof {
                assert(issues.deep_view() =~= prev.push(
                    IssueV::UndefinedLinkSegment { name: graph@.links[i as int].from_segment },
                ));
            }
        }
        if graph.get_segment(link.to_segment.as_slice()).is_none() {
            let ghost prev = issues.deep_view();
            issues.push(
                ValidationIssue::UndefinedLinkSegment {
                    name: bytes_to_vec(link.to_segment.as_slice()),
                },
            );
            proof {
                assert(issues.deep_view() =~= prev.push(
                    IssueV::UndefinedLinkSegment { name: graph@.links[i as int].to_segment },
                ));
            }
        }
        i = i + 1;
    }
    let pn = graph.paths.len();
    let mut p: usize = 0;
    while p < pn
        invariant
            0 <= p <= pn,
            pn == graph.paths@.len(),
            spec_path_issues(graph@, 0, spec_link_issues(graph@, 0, Seq::empty()))
                == spec_path_issues(graph@, p as int, issues.deep_view()),
        decreases pn - p,
    {
        let path = &graph.paths[p];
        proof {
            assert(graph@.paths[p as int] == graph.paths@[p as int]@);
        }
        let sn = path.steps.len();
        let ghost dv_entry = issues.deep_view();
        let mut j: usize = 0;
        while j < sn
            invariant
                0 <= j <= sn,
                sn == path.steps@.len(),
                p < graph.paths@.len(),
                path@ == graph@.paths[p as int],
                spec_path_issues(graph@, 0, spec_link_issues(graph@, 0, Seq::empty()))
                    == spec_path_issues(graph@, p as int, dv_entry),
                spec_step_issues(
                    graph@,
                    graph@.paths[p as int].name,
                    graph@.paths[p as int].steps,
                    0,
                    dv_entry,
                ) == spec_step_issues(
                    graph@,
                    graph@.paths[p as int].name,
                    graph@.paths[p as int].steps,
                    j as int,
                    issues.deep_view(),
                ),
            decreases sn - j,
        {
            let step = &path.steps[j];
            proof {
                assert(path@.steps[j as int] == path.steps@[j as int]@);
            }
            if graph.get_segment(step.segment.as_slice()).is_none() {
                let ghost prev = issues.deep_view();
                issues.push(
                    ValidationIssue::UndefinedPathSegment {
                        path: bytes_to_vec(path.name.as_slice()),
                        name: bytes_to_vec(step.segment.as_slice()),
                    },
                );
                proof {
                    assert(issues.deep_view() =~= prev.push(
                        IssueV::UndefinedPathSegment {
                            path: graph@.paths[p as int].name,
                            name: graph@.paths[p as int].steps[j as int].segment,
                        },
                    ));
                }
            }
            j = j + 1;
        }
        p = p + 1;
    }
    let mut warnings: Vec<ValidationWarning> = Vec::new();
    proof {
        assert(warnings.deep_view() =~= Seq::<WarnV>::empty());
    }
    let gn = graph.segments.len();
    let mut s: usize = 0;
    while s < gn
        invariant
            0 <= s <= gn,
            gn == graph.segments@.len(),
            spec_warnings_fold(graph@, 0, Seq::empty()) == spec_warnings_fold(
                graph@,
                s as int,
                warnings.deep_view(),
            ),
        decreases gn - s,
    {
        let seg = &graph.segments[s];
        proof {
            assert(graph@.segments[s as int] == graph.segments@[s as int]@);
        }
        let blank = seg.sequence.len() == 0 || (seg.sequence.len() == 1 && seg.sequence[0] == 42);
        proof {
            if blank {
                if seg@.sequence.len() != 0 {
                    assert(seg@.sequence =~= seq![42u8]);
                }
            } else {
                if seg@.sequence.len() == 1 {
                    assert(seq![42u8][0] == 42u8);
                }
                assert(!seq_blank(seg@.sequence));
            }
        }
        if blank {
            let ghost prev = warnings.deep_view();
            warnings.push(
                ValidationWarning::EmptySequence { name: bytes_to_vec(seg.name.as_slice()) },
            );
            proof {
                assert(warnings.deep_view() =~= prev.push(
                    WarnV::EmptySequence { name: graph@.segments[s as int].name },
                ));
            }
        }
        s = s + 1;
    }
    (issues, warnings)
}

/// The number of link endpoints, from position `i` on, that name no
/// segment — counting a link with two undefined endpoints twice.
pub open spec fn undef_link_endpoints(g: GraphV, i: int) -> int
    decreases g.links.len() - i,
{
    if i < 0 || i >= g.links.len() {
        0
    } else {
        (if !seg_defined(g, g.links[i].from_segment) {
            1int
        } else {
            0int
        }) + (if !seg_defined(g, g.links[i].to_segment) {
            1int
        } else {
            0int
        }) + undef_link_endpoints(g, i + 1)
    }
}

pub proof fn lemma_link_issue_count(g: GraphV, i: int, acc: Seq<IssueV>)
    requires
        0 <= i <= g.links.len(),
    ensures
        spec_link_issues(g, i, acc).len() == acc.len() + undef_link_endpoints(g, i),
    decreases g.links.len() - i,
{
    if i < g.links.len() {
        let a1 = if !seg_defined(g, g.links[i].from_segment) {
            acc.push(IssueV::UndefinedLinkSegment { name: g.links[i].from_segment })
        } else {
            acc
        };
        let a2 = if !seg_defined(g, g.links[i].to_segment) {
            a1.push(IssueV::UndefinedLinkSegment { name: g.links[i].to_segment })
        } else {
            a1
        };
        lemma_link_issue_count(g, i + 1, a2);
    }
}

/// Law: on a graph whose paths are all well-formed, validation reports
/// exactly one error per link endpoint that names no segment, and it
/// reports them without failing or changing the graph.
pub proof fn lemma_one_error_per_undefined_endpoint(g: GraphV)
    requires
        forall|i: int, j: int|
            0 <= i < g.paths.len() && 0 <= j < (#[trigger] g.paths[i]).steps.len() ==> seg_defined(
                g,
                #[trigger] g.paths[i].steps[j].segment,
            ),
    ensures
        spec_issues(g).len() == undef_link_endpoints(g, 0),
{
    lemma_link_issue_count(g, 0, Seq::empty());
    lemma_path_issues_no_undef(g, 0, spec_link_issues(g, 0, Seq::empty()));
}

pub proof fn lemma_step_issues_no_undef(
    g: GraphV,
    pname: Seq<u8>,
    steps: Seq<crate::gfa::StepV>,
    j: int,
    acc: Seq<IssueV>,
)
    requires
        0 <= j <= steps.len(),
        forall|k: int| 0 <= k < steps.len() ==> seg_defined(g, (#[trigger] steps[k]).segment),
    ensures
        spec_step_issues(g, pname, steps, j, acc) == acc,
    decreases steps.len() - j,
{
    if j < steps.len() {
        lemma_step_issues_no_undef(g, pname, steps, j + 1, acc);
    }
}

pub proof fn lemma_path_issues_no_undef(g: GraphV, i: int, acc: Seq<IssueV>)
    requires
        0 <= i <= g.paths.len(),
        forall|a: int, j: int|
            0 <= a < g.paths.len() && 0 <= j < (#[trigger] g.paths[a]).steps.len() ==> seg_defined(
                g,
                #[trigger] g.paths[a].steps[j].segment,
            ),
    ensures
        spec_path_issues(g, i, acc) == acc,
    decreases g.paths.len() - i,
{
    if i < g.paths.len() {
        lemma_step_issues_no_undef(g, g.paths[i].name, g.paths[i].steps, 0, acc);
        lemma_path_issues_no_undef(g, i + 1, acc);
    }
}

} // verus!
