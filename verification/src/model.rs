//! What it means to run a graph: the dependencies of a task, when they can be
//! granted, and how one task changes the values of the nodes.
//!
//! Nothing here is executed. The executor is proved against it.

use vstd::prelude::*;
use crate::arbiter::{Access, LockState};
use crate::error::{ExecutionError, ReceiveError};
use crate::graph::{edges_in_range, incoming, is_topological_order, lists, Link};
use crate::guards::{fits, Expect, GuardView};
use crate::node::{same_access, Node, NodeType};
use crate::value::{ErasedValue, TypeTag};

verus! {

/// One input of a task: the node it comes from, how it is used, and its place
/// among the task's arguments.
#[derive(Debug, PartialEq, Eq, Clone, Copy, Structural)]
pub struct Dependency {
    pub source: usize,
    pub access: Access,
    pub arg_position: usize,
}

/// The values of the nodes: `None` for a task that has not produced one.
pub type Values = Seq<Option<ErasedValue>>;

/// The dependencies of `node`, in the order in which its edges were added.
pub open spec fn dependencies(edges: Seq<Link>, node: int) -> Seq<Dependency> {
    let found = incoming(edges, node);
    Seq::new(
        found.len(),
        |p: int|
            {
                let e = found[found.len() - 1 - p];
                Dependency { source: e.0, access: Access::spec_of_code(e.2), arg_position: e.1 }
            },
    )
}

/// Whether each dependency stands at the argument position it names.
pub open spec fn in_position(deps: Seq<Dependency>) -> bool {
    forall|p: int| 0 <= p < deps.len() ==> (#[trigger] deps[p]).arg_position == p
}

/// Whether two of the dependencies ask for the same node and one of them
/// asks for it alone.
pub open spec fn conflicting(deps: Seq<Dependency>) -> bool {
    exists|i: int, j: int|
        0 <= i < j < deps.len() && (#[trigger] deps[i]).source == (#[trigger] deps[j]).source && (
        deps[i].access.is_exclusive() || deps[j].access.is_exclusive())
}

/// Whether a dependency asks for a node that has no value.
pub open spec fn missing(deps: Seq<Dependency>, values: Values) -> bool {
    exists|p: int| 0 <= p < deps.len() && values[(#[trigger] deps[p]).source as int] is None
}

/// The guards that a task with these dependencies is handed.
pub open spec fn granted_guards(deps: Seq<Dependency>, values: Values) -> Seq<GuardView> {
    Seq::new(
        deps.len(),
        |p: int|
            GuardView {
                exclusive: deps[p].access.is_exclusive(),
                value: values[deps[p].source as int]->0,
            },
    )
}

/// Whether `node` is the source of an exclusive dependency.
pub open spec fn writes_to(deps: Seq<Dependency>, node: int) -> bool {
    exists|p: int|
        0 <= p < deps.len() && (#[trigger] deps[p]).source == node && deps[p].access.is_exclusive()
}

/// Whether `next` is `values` with what the guards show under each exclusive
/// dependency put in place of the value it was taken from.
pub open spec fn put_back(
    deps: Seq<Dependency>,
    after: Seq<GuardView>,
    values: Values,
    next: Values,
) -> bool {
    &&& next.len() == values.len()
    &&& forall|p: int|
        0 <= p < deps.len() && (#[trigger] deps[p]).access.is_exclusive()
            ==> next[deps[p].source as int] == Some(after[p].value)
    &&& forall|r: int|
        0 <= r < values.len() && !writes_to(deps, r) ==> #[trigger] next[r] == values[r]
}

/// Whether running `task`, which is the node numbered `node` and has the
/// dependencies `deps`, may take the values from `values` to `next` and end
/// with `outcome`.
///
/// A task whose dependencies conflict, or ask for a value that is missing, is
/// not run and changes nothing. Otherwise it is handed its guards; the values
/// under the exclusive ones go back to where they came from, and on success
/// what the task made becomes the value of its node.
pub open spec fn task_step(
    task: Node,
    node: int,
    deps: Seq<Dependency>,
    values: Values,
    next: Values,
    outcome: Result<(), ExecutionError>,
) -> bool {
    if conflicting(deps) {
        next == values && outcome == Err::<(), ExecutionError>(ExecutionError::AccessConflict)
    } else if missing(deps, values) {
        next == values && outcome == Err::<(), ExecutionError>(
            ExecutionError::MissingDependencyValue,
        )
    } else {
        exists|after: Seq<GuardView>, kept: Values, out: Result<ErasedValue, ReceiveError>|
            #[trigger] task_effect(task, node, deps, values, next, outcome, after, kept, out)
    }
}

/// Whether `task`, handed the guards of `deps`, may leave them as `after` and
/// end with `out`, with `kept` the values once the guards are put back, `next`
/// the values once what the task made is stored too, and `outcome` what the
/// visit ends with. A task that is handed the guards it wants does not fail,
/// and what it makes is of the type it says.
pub open spec fn task_effect(
    task: Node,
    node: int,
    deps: Seq<Dependency>,
    values: Values,
    next: Values,
    outcome: Result<(), ExecutionError>,
    after: Seq<GuardView>,
    kept: Values,
    out: Result<ErasedValue, ReceiveError>,
) -> bool {
    &&& same_access(granted_guards(deps, values), after)
    &&& task.spec_fires(granted_guards(deps, values), after, out)
    &&& fits(granted_guards(deps, values), task.spec_wants()) ==> out is Ok
    &&& out is Ok ==> out->Ok_0.tag() == task.spec_tag()
    &&& put_back(deps, after, values, kept)
    &&& match out {
        Ok(made) => next == kept.update(node, Some(made)) && outcome is Ok,
        Err(e) => next == kept && outcome == Err::<(), ExecutionError>(ExecutionError::of(e)),
    }
}

/// Whether visiting `node` may take the values from `values` to `next` and
/// end with `outcome`. A resource is already there: visiting it changes
/// nothing. A task is run. A node that the graph does not have is missing.
pub open spec fn step(
    nodes: Seq<Node>,
    edges: Seq<Link>,
    node: int,
    values: Values,
    next: Values,
    outcome: Result<(), ExecutionError>,
) -> bool {
    if !(0 <= node < nodes.len()) {
        next == values && outcome == Err::<(), ExecutionError>(
            ExecutionError::MissingDependencyValue,
        )
    } else {
        match nodes[node].kind() {
            NodeType::Resource => next == values && outcome is Ok,
            NodeType::Task => task_step(
                nodes[node],
                node,
                dependencies(edges, node),
                values,
                next,
                outcome,
            ),
        }
    }
}

/// Whether visiting the first `upto` nodes of `order`, each with success, may
/// take the values from `start` to `end`.
pub open spec fn ran(
    nodes: Seq<Node>,
    edges: Seq<Link>,
    order: Seq<usize>,
    upto: int,
    start: Values,
    end: Values,
) -> bool
    decreases upto,
{
    if upto <= 0 {
        end == start
    } else {
        exists|mid: Values|
            {
                &&& ran(nodes, edges, order, upto - 1, start, mid)
                &&& #[trigger] step(nodes, edges, order[upto - 1] as int, mid, end, Ok(()))
            }
    }
}

/// The grants out for `node` once the first `upto` dependencies have been
/// asked for in turn, starting with none out.
pub open spec fn held(deps: Seq<Dependency>, upto: int, node: int) -> LockState
    decreases upto,
{
    if upto <= 0 {
        LockState::Free
    } else {
        let before = held(deps, upto - 1, node);
        if deps[upto - 1].source == node {
            before.granted(deps[upto - 1].access)
        } else {
            before
        }
    }
}

/// Whether each of the first `upto` dependencies is granted when asked for in turn.
pub open spec fn all_granted(deps: Seq<Dependency>, upto: int) -> bool {
    forall|p: int|
        0 <= p < upto ==> held(deps, p, (#[trigger] deps[p]).source as int).allows(deps[p].access)
}

/// What is held is well formed, counts no more readers than were asked
/// for, and is free exactly for the nodes that nobody asked for.
pub proof fn lemma_held(deps: Seq<Dependency>, upto: int, node: int)
    requires
        0 <= upto <= deps.len(),
    ensures
        held(deps, upto, node).wf(),
        held(deps, upto, node) matches LockState::Shared(n) ==> n <= upto,
        held(deps, upto, node) is Free <==> forall|p: int|
            0 <= p < upto ==> (#[trigger] deps[p]).source != node,
        held(deps, upto, node) is Exclusive ==> exists|p: int|
            0 <= p < upto && (#[trigger] deps[p]).source == node && deps[p].access.is_exclusive(),
    decreases upto,
{
    if upto > 0 {
        lemma_held(deps, upto - 1, node);
        if deps[upto - 1].source == node {
            assert(!(held(deps, upto, node) is Free));
        }
    }
}

/// Once a writer was granted a node, the node stays held alone.
pub proof fn lemma_writer_holds(deps: Seq<Dependency>, writer: int, upto: int)
    requires
        0 <= writer < upto <= deps.len(),
        deps[writer].access.is_exclusive(),
        held(deps, writer, deps[writer].source as int).allows(deps[writer].access),
    ensures
        held(deps, upto, deps[writer].source as int) is Exclusive,
    decreases upto,
{
    if upto > writer + 1 {
        lemma_writer_holds(deps, writer, upto - 1);
    }
}

/// The arbiter refuses a dependency exactly when the dependencies conflict:
/// asked for in turn they are all granted if and only if no two of them ask
/// for the same node with one of them asking for it alone.
pub proof fn lemma_granted_iff_compatible(deps: Seq<Dependency>)
    requires
        deps.len() <= usize::MAX,
    ensures
        all_granted(deps, deps.len() as int) <==> !conflicting(deps),
{
    if all_granted(deps, deps.len() as int) {
        if conflicting(deps) {
            let (i, j) = choose|i: int, j: int|
                0 <= i < j < deps.len() && (#[trigger] deps[i]).source == (
                #[trigger] deps[j]).source && (deps[i].access.is_exclusive()
                    || deps[j].access.is_exclusive());
            let node = deps[j].source as int;
            assert(held(deps, j, node).allows(deps[j].access));
            if deps[i].access.is_exclusive() {
                assert(held(deps, i, deps[i].source as int).allows(deps[i].access));
                lemma_writer_holds(deps, i, j);
            } else {
                lemma_held(deps, j, node);
                assert(deps[i].source == node);
            }
        }
    } else {
        let p = choose|p: int|
            0 <= p < deps.len() && !held(deps, p, (#[trigger] deps[p]).source as int).allows(
                deps[p].access,
            );
        lemma_refused_conflicts(deps, p);
    }
}

/// A dependency that the arbiter refuses conflicts with one asked for before it.
pub proof fn lemma_refused_conflicts(deps: Seq<Dependency>, p: int)
    requires
        0 <= p < deps.len(),
        deps.len() <= usize::MAX,
        !held(deps, p, deps[p].source as int).allows(deps[p].access),
    ensures
        conflicting(deps),
{
    let node = deps[p].source as int;
    lemma_held(deps, p, node);
    if deps[p].access.is_exclusive() {
        let q = choose|q: int| 0 <= q < p && (#[trigger] deps[q]).source == node;
        assert(deps[q].source == deps[p].source);
    } else {
        let q = choose|q: int|
            0 <= q < p && (#[trigger] deps[q]).source == node && deps[q].access.is_exclusive();
        assert(deps[q].source == deps[p].source);
    }
}

/// A dependency as the edge that carries it into `target`.
pub open spec fn link_of(dep: Dependency, target: int) -> Link {
    (dep.source, target as usize, dep.arg_position, dep.access.spec_code())
}

/// An edge, seen from its target.
pub open spec fn dependency_of(link: Link) -> Dependency {
    Dependency { source: link.0, access: Access::spec_of_code(link.3), arg_position: link.2 }
}

/// A new edge becomes the last dependency of its target and changes the
/// dependencies of no other node.
pub proof fn lemma_push_edge(edges: Seq<Link>, link: Link, node: int)
    ensures
        dependencies(edges.push(link), node) == if link.1 == node {
            dependencies(edges, node).push(dependency_of(link))
        } else {
            dependencies(edges, node)
        },
{
    let longer = edges.push(link);
    assert(longer.drop_last() =~= edges);
    assert(longer.last() == link);
    if link.1 == node {
        assert(incoming(longer, node) =~= seq![(link.0, link.2, link.3)] + incoming(edges, node));
        assert(dependencies(longer, node) =~= dependencies(edges, node).push(dependency_of(link)));
    } else {
        assert(dependencies(longer, node) =~= dependencies(edges, node));
    }
}

/// A node has no more dependencies than there are edges, each is one of the
/// edges into it, and a node that no edge leads to has none.
pub proof fn lemma_dependencies_are_edges(edges: Seq<Link>, node: int)
    ensures
        dependencies(edges, node).len() <= edges.len(),
        forall|p: int|
            0 <= p < dependencies(edges, node).len() ==> exists|k: int|
                0 <= k < edges.len() && (#[trigger] edges[k]).1 == node && dependency_of(edges[k])
                    == #[trigger] dependencies(edges, node)[p],
        (forall|k: int| 0 <= k < edges.len() ==> (#[trigger] edges[k]).1 != node) ==> dependencies(
            edges,
            node,
        ).len() == 0,
    decreases edges.len(),
{
    if edges.len() > 0 {
        let shorter = edges.drop_last();
        let link = edges.last();
        lemma_dependencies_are_edges(shorter, node);
        lemma_push_edge(shorter, link, node);
        assert(shorter.push(link) =~= edges);
        let deps = dependencies(edges, node);
        assert forall|p: int| 0 <= p < deps.len() implies exists|k: int|
            0 <= k < edges.len() && (#[trigger] edges[k]).1 == node && dependency_of(edges[k])
                == #[trigger] deps[p] by {
            if link.1 == node && p == deps.len() - 1 {
                assert(edges[edges.len() - 1] == link);
            } else {
                let k = choose|k: int|
                    0 <= k < shorter.len() && (#[trigger] shorter[k]).1 == node && dependency_of(
                        shorter[k],
                    ) == dependencies(shorter, node)[p];
                assert(edges[k] == shorter[k]);
            }
        }
        if forall|k: int| 0 <= k < edges.len() ==> (#[trigger] edges[k]).1 != node {
            assert(edges[edges.len() - 1] == link);
            assert forall|k: int| 0 <= k < shorter.len() implies (#[trigger] shorter[k]).1
                != node by {
                assert(edges[k] == shorter[k]);
            }
        }
    } else {
        assert(dependencies(edges, node) =~= Seq::<Dependency>::empty());
    }
}

/// Whether visiting the first `upto` nodes of `order` with success and then
/// failing with `error` on the next may take the values from `start` to `end`.
pub open spec fn stopped(
    nodes: Seq<Node>,
    edges: Seq<Link>,
    order: Seq<usize>,
    upto: int,
    start: Values,
    end: Values,
    error: ExecutionError,
) -> bool {
    exists|mid: Values|
        {
            &&& ran(nodes, edges, order, upto, start, mid)
            &&& #[trigger] step(nodes, edges, order[upto] as int, mid, end, Err(error))
        }
}

/// Whether visiting the nodes of `order` in turn, up to the first that fails,
/// may take the values from `start` to `end` and end with `outcome`.
pub open spec fn run_of(
    nodes: Seq<Node>,
    edges: Seq<Link>,
    order: Seq<usize>,
    start: Values,
    end: Values,
    outcome: Result<(), ExecutionError>,
) -> bool {
    match outcome {
        Ok(_) => ran(nodes, edges, order, order.len() as int, start, end),
        Err(error) => exists|upto: int|
            0 <= upto < order.len() && #[trigger] stopped(
                nodes,
                edges,
                order,
                upto,
                start,
                end,
                error,
            ),
    }
}

/// A run never reports a cycle: cycles are found before any node is visited.
pub proof fn lemma_run_reports_no_cycle(
    nodes: Seq<Node>,
    edges: Seq<Link>,
    order: Seq<usize>,
    start: Values,
    end: Values,
    outcome: Result<(), ExecutionError>,
)
    requires
        run_of(nodes, edges, order, start, end, outcome),
    ensures
        outcome != Err::<(), ExecutionError>(ExecutionError::CyclicGraph),
{
}

/// One more successful visit extends a run.
pub proof fn lemma_ran_next(
    nodes: Seq<Node>,
    edges: Seq<Link>,
    order: Seq<usize>,
    upto: int,
    start: Values,
    mid: Values,
    end: Values,
)
    requires
        0 < upto <= order.len(),
        ran(nodes, edges, order, upto - 1, start, mid),
        step(nodes, edges, order[upto - 1] as int, mid, end, Ok(())),
    ensures
        ran(nodes, edges, order, upto, start, end),
{
}

/// What asking for the value of `node` as a value of type `tag` gives.
pub open spec fn found(values: Values, node: int, tag: TypeTag) -> Result<
    ErasedValue,
    ExecutionError,
> {
    if !(0 <= node < values.len()) {
        Err(ExecutionError::MissingDependencyValue)
    } else {
        match values[node] {
            None => Err(ExecutionError::MissingDependencyValue),
            Some(value) => if value.tag() == tag {
                Ok(value)
            } else {
                Err(ExecutionError::TypeMismatch)
            },
        }
    }
}

/// A value that no task of a run writes to stays as it was, so every task
/// of the run that reads it is shown the same value.
pub proof fn lemma_unwritten_is_unchanged(
    nodes: Seq<Node>,
    edges: Seq<Link>,
    order: Seq<usize>,
    upto: int,
    start: Values,
    end: Values,
    node: int,
)
    requires
        ran(nodes, edges, order, upto, start, end),
        0 <= upto <= order.len(),
        nodes.len() == start.len(),
        forall|k: int| 0 <= k < order.len() ==> #[trigger] order[k] < nodes.len(),
        0 <= node < nodes.len(),
        nodes[node].kind() == NodeType::Resource,
        forall|k: int|
            0 <= k < upto ==> !writes_to(dependencies(edges, #[trigger] order[k] as int), node),
    ensures
        end.len() == start.len(),
        end[node] == start[node],
    decreases upto,
{
    if upto > 0 {
        let mid = choose|mid: Values|
            ran(nodes, edges, order, upto - 1, start, mid) && #[trigger] step(
                nodes,
                edges,
                order[upto - 1] as int,
                mid,
                end,
                Ok(()),
            );
        lemma_unwritten_is_unchanged(nodes, edges, order, upto - 1, start, mid, node);
        let visited = order[upto - 1] as int;
        assert(!writes_to(dependencies(edges, visited), node));
        if nodes[visited].kind() == NodeType::Task {
            let deps = dependencies(edges, visited);
            let (after, kept, out) = choose|
                after: Seq<GuardView>,
                kept: Values,
                out: Result<ErasedValue, ReceiveError>,
            |
                #[trigger] task_effect(
                    nodes[visited],
                    visited,
                    deps,
                    mid,
                    end,
                    Ok(()),
                    after,
                    kept,
                    out,
                );
            assert(kept[node] == mid[node]);
        }
    }
}

/// Whether every dependency of every node names a node below `nodes`.
pub open spec fn wired_in_range(nodes: int, edges: Seq<Link>) -> bool {
    forall|t: int, p: int|
        0 <= t < nodes && 0 <= p < dependencies(edges, t).len() ==> (#[trigger] dependencies(
            edges,
            t,
        )[p]).source < nodes
}

/// Edges that join existing nodes give dependencies on existing nodes.
pub proof fn lemma_wired_in_range(nodes: nat, edges: Seq<Link>)
    requires
        edges_in_range(nodes, edges),
    ensures
        wired_in_range(nodes as int, edges),
{
    assert forall|t: int, p: int|
        0 <= t < nodes && 0 <= p < dependencies(edges, t).len() implies (#[trigger] dependencies(
        edges,
        t,
    )[p]).source < nodes by {
        lemma_dependencies_are_edges(edges, t);
        let k = choose|k: int|
            0 <= k < edges.len() && (#[trigger] edges[k]).1 == t && dependency_of(edges[k])
                == dependencies(edges, t)[p];
        assert(edges[k].0 < nodes);
    }
}

/// A visit that succeeds takes no value away, and leaves a task that was
/// visited with a value.
pub proof fn lemma_step_keeps_values(
    nodes: Seq<Node>,
    edges: Seq<Link>,
    node: int,
    values: Values,
    next: Values,
)
    requires
        step(nodes, edges, node, values, next, Ok(())),
        0 <= node < nodes.len(),
        nodes.len() == values.len(),
        wired_in_range(nodes.len() as int, edges),
    ensures
        next.len() == values.len(),
        forall|i: int| 0 <= i < values.len() && values[i] is Some ==> (#[trigger] next[i]) is Some,
        nodes[node].kind() == NodeType::Task ==> next[node] is Some,
{
    if nodes[node].kind() == NodeType::Task {
        let deps = dependencies(edges, node);
        let (after, kept, out) = choose|
            after: Seq<GuardView>,
            kept: Values,
            out: Result<ErasedValue, ReceiveError>,
        |
            #[trigger] task_effect(nodes[node], node, deps, values, next, Ok(()), after, kept, out);
        assert forall|i: int| 0 <= i < values.len() && values[i] is Some implies (
        #[trigger] kept[i]) is Some by {
            if writes_to(deps, i) {
                let p = choose|p: int|
                    0 <= p < deps.len() && (#[trigger] deps[p]).source == i
                        && deps[p].access.is_exclusive();
                assert(kept[deps[p].source as int] == Some(after[p].value));
            }
        }
    }
}

/// A run takes no value away, and leaves every task it visited with a value.
pub proof fn lemma_ran_keeps_values(
    nodes: Seq<Node>,
    edges: Seq<Link>,
    order: Seq<usize>,
    upto: int,
    start: Values,
    end: Values,
)
    requires
        ran(nodes, edges, order, upto, start, end),
        0 <= upto <= order.len(),
        nodes.len() == start.len(),
        forall|k: int| 0 <= k < order.len() ==> #[trigger] order[k] < nodes.len(),
        wired_in_range(nodes.len() as int, edges),
    ensures
        end.len() == start.len(),
        forall|i: int| 0 <= i < start.len() && start[i] is Some ==> (#[trigger] end[i]) is Some,
        forall|j: int|
            0 <= j < upto && nodes[#[trigger] order[j] as int].kind() == NodeType::Task
                ==> end[order[j] as int] is Some,
    decreases upto,
{
    if upto > 0 {
        let mid = choose|mid: Values|
            ran(nodes, edges, order, upto - 1, start, mid) && #[trigger] step(
                nodes,
                edges,
                order[upto - 1] as int,
                mid,
                end,
                Ok(()),
            );
        lemma_ran_keeps_values(nodes, edges, order, upto - 1, start, mid);
        lemma_step_keeps_values(nodes, edges, order[upto - 1] as int, mid, end);
        assert forall|i: int| 0 <= i < start.len() && start[i] is Some implies (
        #[trigger] end[i]) is Some by {
            assert(mid[i] is Some);
        }
        assert forall|j: int|
            0 <= j < upto && nodes[#[trigger] order[j] as int].kind()
                == NodeType::Task implies end[order[j] as int] is Some by {
            if j < upto - 1 {
                assert(mid[order[j] as int] is Some);
            }
        }
    }
}

/// In a run that follows a topological order nothing is missing: when a
/// task's turn comes, every node it depends on has a value, as long as every
/// resource had one at the start.
pub proof fn lemma_scheduled_values_present(
    nodes: Seq<Node>,
    edges: Seq<Link>,
    order: Seq<usize>,
    upto: int,
    start: Values,
    mid: Values,
)
    requires
        is_topological_order(nodes.len(), edges, order),
        edges_in_range(nodes.len(), edges),
        nodes.len() == start.len(),
        forall|i: int|
            0 <= i < nodes.len() && (#[trigger] nodes[i]).kind() == NodeType::Resource
                ==> start[i] is Some,
        0 <= upto < order.len(),
        ran(nodes, edges, order, upto, start, mid),
    ensures
        !missing(dependencies(edges, order[upto] as int), mid),
{
    let node = order[upto] as int;
    let deps = dependencies(edges, node);
    lemma_wired_in_range(nodes.len(), edges);
    lemma_ran_keeps_values(nodes, edges, order, upto, start, mid);
    lemma_dependencies_are_edges(edges, node);
    assert forall|p: int| 0 <= p < deps.len() implies mid[(#[trigger] deps[p]).source as int]
        is Some by {
        let k = choose|k: int|
            0 <= k < edges.len() && (#[trigger] edges[k]).1 == node && dependency_of(edges[k])
                == deps[p];
        let source = edges[k].0 as int;
        assert(lists(order, source));
        let at = choose|i: int| 0 <= i < order.len() && #[trigger] order[i] == source;
        assert(at < upto);
        if nodes[source].kind() == NodeType::Task {
            assert(mid[order[at] as int] is Some);
        } else {
            assert(start[source] is Some);
        }
    }
}

/// Whether the dependencies give a task the guards it wants: each of the
/// first ones asks for its source alone or not as the task expects, and its
/// source is a node whose values are of the type that the task expects.
pub open spec fn expects_met(nodes: Seq<Node>, deps: Seq<Dependency>, wants: Seq<Expect>) -> bool {
    &&& wants.len() <= deps.len()
    &&& forall|p: int|
        0 <= p < wants.len() ==> (#[trigger] deps[p]).access.is_exclusive() == wants[p].exclusive
            && nodes[deps[p].source as int].spec_tag() == wants[p].tag
}

/// What holds of the wiring of every graph that is built task by task: edges
/// join nodes that exist, no task asks twice for a node that it asks for
/// alone, and every task is given the guards it wants.
pub open spec fn well_wired(nodes: Seq<Node>, edges: Seq<Link>) -> bool {
    &&& edges_in_range(nodes.len(), edges)
    &&& forall|t: int|
        0 <= t < nodes.len() ==> !conflicting(#[trigger] dependencies(edges, t)) && expects_met(
            nodes,
            dependencies(edges, t),
            nodes[t].spec_wants(),
        )
}

/// What holds of the values of such a graph: every resource has one, and
/// every value is of the type of its node.
pub open spec fn well_typed(nodes: Seq<Node>, values: Values) -> bool {
    &&& values.len() == nodes.len()
    &&& forall|i: int|
        0 <= i < nodes.len() && (#[trigger] values[i]) is Some ==> values[i]->0.tag()
            == nodes[i].spec_tag()
    &&& forall|i: int|
        0 <= i < nodes.len() && (#[trigger] nodes[i]).kind() == NodeType::Resource
            ==> values[i] is Some
}

/// Putting back what a task was handed, and storing what it made, keeps
/// every value of the type of its node.
pub proof fn lemma_effect_keeps_types(
    nodes: Seq<Node>,
    node: int,
    deps: Seq<Dependency>,
    values: Values,
    next: Values,
    outcome: Result<(), ExecutionError>,
    after: Seq<GuardView>,
    kept: Values,
    out: Result<ErasedValue, ReceiveError>,
)
    requires
        0 <= node < nodes.len(),
        well_typed(nodes, values),
        forall|p: int| 0 <= p < deps.len() ==> (#[trigger] deps[p]).source < nodes.len(),
        !missing(deps, values),
        task_effect(nodes[node], node, deps, values, next, outcome, after, kept, out),
    ensures
        well_typed(nodes, kept),
        well_typed(nodes, next),
{
    let before = granted_guards(deps, values);
    assert forall|i: int| 0 <= i < nodes.len() implies ((#[trigger] kept[i]) is Some
        ==> kept[i]->0.tag() == nodes[i].spec_tag()) && (values[i] is Some ==> kept[i] is Some) by {
        if writes_to(deps, i) {
            let p = choose|p: int|
                0 <= p < deps.len() && (#[trigger] deps[p]).source == i
                    && deps[p].access.is_exclusive();
            assert(kept[deps[p].source as int] == Some(after[p].value));
            assert(before[p].value.tag() == after[p].value.tag());
            assert(values[deps[p].source as int] is Some);
        } else {
            assert(kept[i] == values[i]);
        }
    }
    assert forall|i: int|
        0 <= i < nodes.len() && (#[trigger] nodes[i]).kind()
            == NodeType::Resource implies kept[i] is Some by {
        assert(values[i] is Some);
    }
}

/// Running a task, with success or not, keeps every value of the type of
/// its node.
pub proof fn lemma_task_step_keeps_types(
    nodes: Seq<Node>,
    node: int,
    deps: Seq<Dependency>,
    values: Values,
    next: Values,
    outcome: Result<(), ExecutionError>,
)
    requires
        0 <= node < nodes.len(),
        well_typed(nodes, values),
        forall|p: int| 0 <= p < deps.len() ==> (#[trigger] deps[p]).source < nodes.len(),
        task_step(nodes[node], node, deps, values, next, outcome),
    ensures
        well_typed(nodes, next),
{
    if !conflicting(deps) && !missing(deps, values) {
        let (after, kept, out) = choose|
            after: Seq<GuardView>,
            kept: Values,
            out: Result<ErasedValue, ReceiveError>,
        |
            #[trigger] task_effect(
                nodes[node],
                node,
                deps,
                values,
                next,
                outcome,
                after,
                kept,
                out,
            );
        lemma_effect_keeps_types(nodes, node, deps, values, next, outcome, after, kept, out);
    }
}

/// A visit that succeeds keeps every value of the type of its node.
pub proof fn lemma_step_keeps_types(
    nodes: Seq<Node>,
    edges: Seq<Link>,
    node: int,
    values: Values,
    next: Values,
)
    requires
        step(nodes, edges, node, values, next, Ok(())),
        0 <= node < nodes.len(),
        well_typed(nodes, values),
        wired_in_range(nodes.len() as int, edges),
    ensures
        well_typed(nodes, next),
{
    if nodes[node].kind() == NodeType::Task {
        let deps = dependencies(edges, node);
        let (after, kept, out) = choose|
            after: Seq<GuardView>,
            kept: Values,
            out: Result<ErasedValue, ReceiveError>,
        |
            #[trigger] task_effect(nodes[node], node, deps, values, next, Ok(()), after, kept, out);
        lemma_effect_keeps_types(nodes, node, deps, values, next, Ok(()), after, kept, out);
    }
}

/// A run keeps every value of the type of its node.
pub proof fn lemma_ran_keeps_types(
    nodes: Seq<Node>,
    edges: Seq<Link>,
    order: Seq<usize>,
    upto: int,
    start: Values,
    end: Values,
)
    requires
        ran(nodes, edges, order, upto, start, end),
        0 <= upto <= order.len(),
        forall|k: int| 0 <= k < order.len() ==> #[trigger] order[k] < nodes.len(),
        well_typed(nodes, start),
        wired_in_range(nodes.len() as int, edges),
    ensures
        well_typed(nodes, end),
    decreases upto,
{
    if upto > 0 {
        let mid = choose|mid: Values|
            ran(nodes, edges, order, upto - 1, start, mid) && #[trigger] step(
                nodes,
                edges,
                order[upto - 1] as int,
                mid,
                end,
                Ok(()),
            );
        lemma_ran_keeps_types(nodes, edges, order, upto - 1, start, mid);
        lemma_step_keeps_types(nodes, edges, order[upto - 1] as int, mid, end);
    }
}

/// A run depends only on the nodes it visits: two orders that begin alike
/// run alike as far as they do.
pub proof fn lemma_ran_prefix(
    nodes: Seq<Node>,
    edges: Seq<Link>,
    order: Seq<usize>,
    other: Seq<usize>,
    upto: int,
    start: Values,
    end: Values,
)
    requires
        0 <= upto <= order.len(),
        upto <= other.len(),
        forall|k: int| 0 <= k < upto ==> order[k] == other[k],
        ran(nodes, edges, order, upto, start, end),
    ensures
        ran(nodes, edges, other, upto, start, end),
    decreases upto,
{
    if upto > 0 {
        let mid = choose|mid: Values|
            ran(nodes, edges, order, upto - 1, start, mid) && #[trigger] step(
                nodes,
                edges,
                order[upto - 1] as int,
                mid,
                end,
                Ok(()),
            );
        lemma_ran_prefix(nodes, edges, order, other, upto - 1, start, mid);
        assert(step(nodes, edges, other[upto - 1] as int, mid, end, Ok(())));
    }
}

/// A run that follows a topological order, or the beginning of one, over a
/// graph that was built task by task does not fail: no task is refused its
/// dependencies, none finds a value missing, and each is handed the guards
/// it wants.
pub proof fn lemma_scheduled_run_succeeds(
    nodes: Seq<Node>,
    edges: Seq<Link>,
    order: Seq<usize>,
    visited: Seq<usize>,
    start: Values,
    end: Values,
    outcome: Result<(), ExecutionError>,
)
    requires
        well_wired(nodes, edges),
        well_typed(nodes, start),
        is_topological_order(nodes.len(), edges, order),
        visited.len() <= order.len(),
        forall|k: int| 0 <= k < visited.len() ==> visited[k] == order[k],
        run_of(nodes, edges, visited, start, end, outcome),
    ensures
        outcome is Ok,
{
    if outcome is Err {
        let error = outcome->Err_0;
        let upto = choose|upto: int|
            0 <= upto < visited.len() && #[trigger] stopped(
                nodes,
                edges,
                visited,
                upto,
                start,
                end,
                error,
            );
        let mid = choose|mid: Values|
            ran(nodes, edges, visited, upto, start, mid) && #[trigger] step(
                nodes,
                edges,
                visited[upto] as int,
                mid,
                end,
                Err(error),
            );
        let node = order[upto] as int;
        let deps = dependencies(edges, node);
        lemma_ran_prefix(nodes, edges, visited, order, upto, start, mid);
        lemma_wired_in_range(nodes.len(), edges);
        lemma_ran_keeps_types(nodes, edges, order, upto, start, mid);
        lemma_scheduled_values_present(nodes, edges, order, upto, start, mid);
        assert(visited[upto] == order[upto]);
        assert(nodes[node].kind() == NodeType::Task);
        assert(!conflicting(deps));
        let (after, kept, out) = choose|
            after: Seq<GuardView>,
            kept: Values,
            out: Result<ErasedValue, ReceiveError>,
        |
            #[trigger] task_effect(
                nodes[node],
                node,
                deps,
                mid,
                end,
                Err(error),
                after,
                kept,
                out,
            );
        let guards = granted_guards(deps, mid);
        let wants = nodes[node].spec_wants();
        assert(expects_met(nodes, deps, wants));
        assert forall|p: int| 0 <= p < wants.len() implies (#[trigger] guards[p]).meets(
            wants[p],
        ) by {
            assert(deps[p].access.is_exclusive() == wants[p].exclusive);
            assert(mid[deps[p].source as int] is Some);
        }
        assert(fits(guards, wants));
    }
}

/// Adding a task whose dependencies give it the guards it wants keeps the
/// graph well wired and its values well typed.
pub proof fn lemma_task_added(
    nodes: Seq<Node>,
    edges: Seq<Link>,
    values: Values,
    task: Node,
    deps: Seq<Dependency>,
    wired: Seq<Link>,
)
    requires
        well_wired(nodes, edges),
        well_typed(nodes, values),
        task.kind() == NodeType::Task,
        forall|p: int| 0 <= p < deps.len() ==> (#[trigger] deps[p]).source < nodes.len(),
        !conflicting(deps),
        expects_met(nodes, deps, task.spec_wants()),
        edges_in_range(nodes.len() + 1, wired),
        dependencies(wired, nodes.len() as int) == deps,
        forall|i: int|
            i != nodes.len() ==> #[trigger] dependencies(wired, i) == dependencies(edges, i),
    ensures
        well_wired(nodes.push(task), wired),
        well_typed(nodes.push(task), values.push(None)),
{
    let longer = nodes.push(task);
    lemma_wired_in_range(nodes.len(), edges);
    assert forall|t: int| 0 <= t < longer.len() implies !conflicting(
        #[trigger] dependencies(wired, t),
    ) && expects_met(longer, dependencies(wired, t), longer[t].spec_wants()) by {
        let found = dependencies(wired, t);
        let wants = longer[t].spec_wants();
        if t < nodes.len() {
            assert(found == dependencies(edges, t));
            assert(expects_met(nodes, found, nodes[t].spec_wants()));
            assert forall|p: int| 0 <= p < wants.len() implies (
            #[trigger] found[p]).access.is_exclusive() == wants[p].exclusive
                && longer[found[p].source as int].spec_tag() == wants[p].tag by {
                assert(found[p].source < nodes.len());
            }
        } else {
            assert forall|p: int| 0 <= p < wants.len() implies (
            #[trigger] found[p]).access.is_exclusive() == wants[p].exclusive
                && longer[found[p].source as int].spec_tag() == wants[p].tag by {
                assert(found[p].source < nodes.len());
            }
        }
    }
    let more = values.push(None);
    assert forall|i: int|
        0 <= i < longer.len() && (#[trigger] more[i]) is Some implies more[i]->0.tag()
        == longer[i].spec_tag() by {
        assert(values[i] is Some);
    }
    assert forall|i: int|
        0 <= i < longer.len() && (#[trigger] longer[i]).kind()
            == NodeType::Resource implies more[i] is Some by {
        assert(nodes[i].kind() == NodeType::Resource);
    }
}

} // verus!
