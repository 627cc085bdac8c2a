//! The steps of running one task: finding its dependencies, asking the
//! arbiter for them, detaching what it may change, and putting it back.

use vstd::prelude::*;
use crate::arbiter::{lemma_release_undoes_grant, Access, LockState};
use crate::error::{ExecutionError, ReceiveError};
use crate::graph::{
    edges_in_range,
    graph_add_edge,
    graph_edges,
    graph_incoming,
    graph_nodes,
    Link,
    Wiring,
};
use crate::guards::{Expect, Guard, GuardView, RwGuards};
use crate::handle::Edge;
use crate::model::{
    all_granted,
    conflicting,
    dependencies,
    expects_met,
    granted_guards,
    held,
    lemma_granted_iff_compatible,
    lemma_held,
    lemma_push_edge,
    lemma_refused_conflicts,
    link_of,
    missing,
    put_back,
    task_effect,
    task_step,
    writes_to,
    Dependency,
    Values,
};
use crate::node::{same_access, Node, NodeType};
use crate::value::ErasedValue;

verus! {

/// Whether every dependency names a node below `nodes`.
pub open spec fn in_range(deps: Seq<Dependency>, nodes: int) -> bool {
    forall|p: int| 0 <= p < deps.len() ==> (#[trigger] deps[p]).source < nodes
}

/// Whether no grant is out.
pub open spec fn all_free(locks: Seq<LockState>) -> bool {
    forall|r: int| 0 <= r < locks.len() ==> #[trigger] locks[r] == LockState::Free
}

/// Whether the grants out are those of the first `upto` dependencies.
pub open spec fn holding(locks: Seq<LockState>, deps: Seq<Dependency>, upto: int) -> bool {
    forall|r: int| 0 <= r < locks.len() ==> #[trigger] locks[r] == held(deps, upto, r)
}

/// Reads the dependencies of `node` off the graph. The graph lists the edges
/// into a node newest first; walked from the far end they come in the order
/// of their argument positions.
pub(crate) fn dependencies_of(graph: &Wiring, node: usize) -> (deps: Vec<Dependency>)
    requires
        node < graph_nodes(*graph),
    ensures
        deps@ == dependencies(graph_edges(*graph), node as int),
{
    let found = graph_incoming(graph, node);
    let mut deps: Vec<Dependency> = Vec::new();
    let mut left: usize = found.len();
    while left > 0
        invariant
            left <= found@.len(),
            deps@.len() == found@.len() - left,
            forall|p: int|
                0 <= p < deps@.len() ==> #[trigger] deps@[p] == (Dependency {
                    source: found@[found@.len() - 1 - p].0,
                    access: Access::spec_of_code(found@[found@.len() - 1 - p].2),
                    arg_position: found@[found@.len() - 1 - p].1,
                }),
        decreases left,
    {
        left = left - 1;
        let e = found[left];
        deps.push(Dependency { source: e.0, access: Access::of_code(e.2), arg_position: e.1 });
    }
    assert(deps@ =~= dependencies(graph_edges(*graph), node as int));
    deps
}

/// Gives back the grants of the first `upto` dependencies, the last first.
pub(crate) fn release_all(locks: &mut Vec<LockState>, deps: &Vec<Dependency>, upto: usize)
    requires
        upto <= deps@.len(),
        in_range(deps@, old(locks)@.len() as int),
        holding(old(locks)@, deps@, upto as int),
        all_granted(deps@, upto as int),
    ensures
        final(locks)@.len() == old(locks)@.len(),
        all_free(final(locks)@),
{
    let mut p: usize = upto;
    while p > 0
        invariant
            p <= upto <= deps@.len(),
            locks@.len() == old(locks)@.len(),
            in_range(deps@, locks@.len() as int),
            holding(locks@, deps@, p as int),
            all_granted(deps@, upto as int),
        decreases p,
    {
        p = p - 1;
        let source: usize = deps[p].source;
        let mut state: LockState = locks[source];
        proof {
            lemma_held(deps@, p as int, source as int);
            let dep = deps@[p as int];
            assert(held(deps@, p as int, dep.source as int).allows(dep.access));
            lemma_release_undoes_grant(held(deps@, p as int, source as int), dep.access);
        }
        state.release();
        locks.set(source, state);
    }
}

/// Asks the arbiter for every dependency in turn. They are granted together
/// or not at all: after a refusal the grants given so far are given back.
pub(crate) fn acquire_all(locks: &mut Vec<LockState>, deps: &Vec<Dependency>) -> (granted: bool)
    requires
        in_range(deps@, old(locks)@.len() as int),
        all_free(old(locks)@),
    ensures
        final(locks)@.len() == old(locks)@.len(),
        granted == !conflicting(deps@),
        granted ==> holding(final(locks)@, deps@, deps@.len() as int) && all_granted(
            deps@,
            deps@.len() as int,
        ),
        !granted ==> all_free(final(locks)@),
{
    let mut p: usize = 0;
    while p < deps.len()
        invariant
            p <= deps@.len(),
            locks@.len() == old(locks)@.len(),
            in_range(deps@, locks@.len() as int),
            holding(locks@, deps@, p as int),
            all_granted(deps@, p as int),
        decreases deps@.len() - p,
    {
        let source: usize = deps[p].source;
        let mut state: LockState = locks[source];
        proof {
            lemma_held(deps@, p as int, source as int);
        }
        match state.try_acquire(deps[p].access) {
            Ok(()) => {
                locks.set(source, state);
                p = p + 1;
            },
            Err(_) => {
                proof {
                    lemma_refused_conflicts(deps@, p as int);
                }
                release_all(locks, deps, p);
                return false;
            },
        }
    }
    proof {
        lemma_granted_iff_compatible(deps@);
    }
    true
}

/// Whether every dependency finds a value.
pub(crate) fn all_present(values: &Vec<Option<ErasedValue>>, deps: &Vec<Dependency>) -> (found:
    bool)
    requires
        in_range(deps@, values@.len() as int),
    ensures
        found == !missing(deps@, values@),
{
    let mut p: usize = 0;
    while p < deps.len()
        invariant
            p <= deps@.len(),
            in_range(deps@, values@.len() as int),
            forall|q: int| 0 <= q < p ==> values@[(#[trigger] deps@[q]).source as int] is Some,
        decreases deps@.len() - p,
    {
        if values[deps[p].source].is_none() {
            return false;
        }
        p = p + 1;
    }
    true
}

/// Detaches the values that the task may change: each is taken out of the
/// store and kept at the position of its dependency.
pub(crate) fn detach(values: &mut Vec<Option<ErasedValue>>, deps: &Vec<Dependency>) -> (taken: Vec<
    Option<ErasedValue>,
>)
    requires
        in_range(deps@, old(values)@.len() as int),
        !conflicting(deps@),
        !missing(deps@, old(values)@),
    ensures
        final(values)@.len() == old(values)@.len(),
        taken@.len() == deps@.len(),
        forall|p: int|
            0 <= p < deps@.len() ==> #[trigger] taken@[p] == (if deps@[p].access.is_exclusive() {
                old(values)@[deps@[p].source as int]
            } else {
                None
            }),
        forall|r: int|
            0 <= r < old(values)@.len() ==> #[trigger] final(values)@[r] == (if writes_to(
                deps@,
                r,
            ) {
                None
            } else {
                old(values)@[r]
            }),
{
    let mut taken: Vec<Option<ErasedValue>> = Vec::new();
    let mut p: usize = 0;
    while p < deps.len()
        invariant
            p <= deps@.len(),
            values@.len() == old(values)@.len(),
            in_range(deps@, values@.len() as int),
            !conflicting(deps@),
            taken@.len() == p,
            forall|q: int|
                0 <= q < p ==> #[trigger] taken@[q] == (if deps@[q].access.is_exclusive() {
                    old(values)@[deps@[q].source as int]
                } else {
                    None
                }),
            forall|r: int|
                0 <= r < values@.len() ==> #[trigger] values@[r] == (if writes_to(
                    deps@.take(p as int),
                    r,
                ) {
                    None
                } else {
                    old(values)@[r]
                }),
        decreases deps@.len() - p,
    {
        let source: usize = deps[p].source;
        let ghost before = values@;
        proof {
            lemma_writes_to_next(deps@, p as int);
        }
        if deps[p].access.exclusive() {
            assert(!writes_to(deps@.take(p as int), source as int)) by {
                if writes_to(deps@.take(p as int), source as int) {
                    let q = choose|q: int|
                        0 <= q < p && (#[trigger] deps@.take(p as int)[q]).source == source;
                    assert(deps@[q].source == deps@[p as int].source);
                }
            }
            let value = values[source].take();
            taken.push(value);
        } else {
            taken.push(None);
        }
        p = p + 1;
    }
    assert(deps@.take(p as int) =~= deps@);
    taken
}

/// What the first `upto + 1` dependencies write to is what the first `upto`
/// write to, and the source of the next one if it is exclusive.
pub proof fn lemma_writes_to_next(deps: Seq<Dependency>, upto: int)
    requires
        0 <= upto < deps.len(),
    ensures
        forall|r: int|
            writes_to(deps.take(upto + 1), r) <==> writes_to(deps.take(upto), r) || (
            deps[upto].source == r && deps[upto].access.is_exclusive()),
{
    let shorter = deps.take(upto);
    let longer = deps.take(upto + 1);
    assert forall|r: int| writes_to(longer, r) <==> writes_to(shorter, r) || (deps[upto].source == r
        && deps[upto].access.is_exclusive()) by {
        if writes_to(shorter, r) {
            let q = choose|q: int|
                0 <= q < shorter.len() && (#[trigger] shorter[q]).source == r
                    && shorter[q].access.is_exclusive();
            assert(longer[q].source == r && longer[q].access.is_exclusive());
        }
        if deps[upto].source == r && deps[upto].access.is_exclusive() {
            assert(longer[upto].source == r && longer[upto].access.is_exclusive());
        }
        if writes_to(longer, r) {
            let q = choose|q: int|
                0 <= q < longer.len() && (#[trigger] longer[q]).source == r
                    && longer[q].access.is_exclusive();
            if q < upto {
                assert(shorter[q].source == r && shorter[q].access.is_exclusive());
            }
        }
    }
}

/// Makes the guards of a task: for each dependency in turn, the detached
/// value if it is exclusive, a borrow of the stored value if it is not.
pub(crate) fn make_guards<'a>(
    values: &'a Vec<Option<ErasedValue>>,
    deps: &Vec<Dependency>,
    taken: Vec<Option<ErasedValue>>,
) -> (ctx: RwGuards<'a>)
    requires
        in_range(deps@, values@.len() as int),
        taken@.len() == deps@.len(),
        forall|p: int|
            0 <= p < deps@.len() ==> if (#[trigger] deps@[p]).access.is_exclusive() {
                taken@[p] is Some
            } else {
                values@[deps@[p].source as int] is Some
            },
    ensures
        ctx@.len() == deps@.len(),
        forall|p: int|
            0 <= p < deps@.len() ==> #[trigger] ctx@[p] == (GuardView {
                exclusive: deps@[p].access.is_exclusive(),
                value: if deps@[p].access.is_exclusive() {
                    taken@[p]->0
                } else {
                    values@[deps@[p].source as int]->0
                },
            }),
{
    let mut ctx = RwGuards::new();
    let mut rest = taken;
    let mut p: usize = deps.len();
    while p > 0
        invariant
            p <= deps@.len(),
            in_range(deps@, values@.len() as int),
            rest@.len() == p,
            taken@.len() == deps@.len(),
            forall|q: int| 0 <= q < p ==> #[trigger] rest@[q] == taken@[q],
            forall|q: int|
                0 <= q < deps@.len() ==> if (#[trigger] deps@[q]).access.is_exclusive() {
                    taken@[q] is Some
                } else {
                    values@[deps@[q].source as int] is Some
                },
            ctx@.len() == deps@.len() - p,
            forall|i: int|
                0 <= i < ctx@.len() ==> #[trigger] ctx@[i] == (GuardView {
                    exclusive: deps@[p + i].access.is_exclusive(),
                    value: if deps@[p + i].access.is_exclusive() {
                        taken@[p + i]->0
                    } else {
                        values@[deps@[p + i].source as int]->0
                    },
                }),
        decreases p,
    {
        p = p - 1;
        let ghost before = ctx@;
        let last = rest.pop();
        assert(deps@[p as int].access.is_exclusive() ==> taken@[p as int] is Some);
        if deps[p].access.exclusive() {
            ctx.push_front(Guard::Exclusive(last.unwrap().unwrap()));
        } else {
            ctx.push_front(Guard::Shared(values[deps[p].source].as_ref().unwrap()));
        }
        assert(forall|i: int| 0 < i < ctx@.len() ==> #[trigger] ctx@[i] == before[i - 1]);
    }
    ctx
}

/// Puts the values that the task was handed alone back where they came from.
pub(crate) fn restore(
    values: &mut Vec<Option<ErasedValue>>,
    deps: &Vec<Dependency>,
    written: Vec<Option<ErasedValue>>,
)
    requires
        in_range(deps@, old(values)@.len() as int),
        !conflicting(deps@),
        written@.len() == deps@.len(),
    ensures
        final(values)@.len() == old(values)@.len(),
        forall|p: int|
            0 <= p < deps@.len() && (#[trigger] deps@[p]).access.is_exclusive()
                ==> final(values)@[deps@[p].source as int] == written@[p],
        forall|r: int|
            0 <= r < old(values)@.len() && !writes_to(deps@, r) ==> #[trigger] final(values)@[r]
                == old(values)@[r],
{
    let mut rest = written;
    let mut p: usize = deps.len();
    while p > 0
        invariant
            p <= deps@.len(),
            values@.len() == old(values)@.len(),
            in_range(deps@, values@.len() as int),
            !conflicting(deps@),
            written@.len() == deps@.len(),
            rest@.len() == p,
            forall|q: int| 0 <= q < p ==> #[trigger] rest@[q] == written@[q],
            forall|q: int|
                p <= q < deps@.len() && (#[trigger] deps@[q]).access.is_exclusive()
                    ==> values@[deps@[q].source as int] == written@[q],
            forall|r: int|
                0 <= r < values@.len() && !writes_to(deps@, r) ==> #[trigger] values@[r] == old(
                    values,
                )@[r],
        decreases p,
    {
        p = p - 1;
        let last = rest.pop();
        if deps[p].access.exclusive() {
            let source: usize = deps[p].source;
            assert(writes_to(deps@, source as int));
            assert forall|q: int|
                p < q < deps@.len() && (#[trigger] deps@[q]).access.is_exclusive()
                implies deps@[q].source != source by {
                if deps@[q].source == source {
                    assert(deps@[p as int].source == deps@[q].source);
                }
            }
            values.set(source, last.unwrap());
        }
    }
}

/// The edges that carry the dependencies into `target`.
pub open spec fn links(deps: Seq<Dependency>, target: int) -> Seq<Link> {
    Seq::new(deps.len(), |p: int| link_of(deps[p], target))
}

/// The dependencies that a set of arguments stands for, placed after the
/// `base` that the task already has.
pub open spec fn declared(sources: Seq<(usize, Access)>, base: int) -> Seq<Dependency> {
    Seq::new(
        sources.len(),
        |p: int|
            Dependency {
                source: sources[p].0,
                access: sources[p].1,
                arg_position: (base + p) as usize,
            },
    )
}

/// Turns the edges that a set of arguments names into dependencies, placed
/// after the `base` that the task already has.
pub(crate) fn declare(info: &Vec<(usize, Edge)>, base: usize) -> (deps: Vec<Dependency>)
    requires
        base == 0 || base + info@.len() <= usize::MAX,
        forall|p: int| 0 <= p < info@.len() ==> (#[trigger] info@[p]).1.arg_idx == p,
    ensures
        deps@.len() == info@.len(),
        forall|p: int|
            0 <= p < info@.len() ==> #[trigger] deps@[p] == (Dependency {
                source: info@[p].0,
                access: info@[p].1.meta,
                arg_position: (base + p) as usize,
            }),
{
    let mut deps: Vec<Dependency> = Vec::new();
    let mut p: usize = 0;
    while p < info.len()
        invariant
            p <= info@.len(),
            base == 0 || base + info@.len() <= usize::MAX,
            forall|q: int| 0 <= q < info@.len() ==> (#[trigger] info@[q]).1.arg_idx == q,
            deps@.len() == p,
            forall|q: int|
                0 <= q < p ==> #[trigger] deps@[q] == (Dependency {
                    source: info@[q].0,
                    access: info@[q].1.meta,
                    arg_position: (base + q) as usize,
                }),
        decreases info@.len() - p,
    {
        let (source, edge) = info[p];
        deps.push(Dependency { source, access: edge.meta, arg_position: base + edge.arg_idx });
        p = p + 1;
    }
    deps
}

/// Whether every dependency names a node below `nodes`, found by looking.
pub(crate) fn check_range(deps: &Vec<Dependency>, nodes: usize) -> (ok: bool)
    ensures
        ok == in_range(deps@, nodes as int),
{
    let mut p: usize = 0;
    while p < deps.len()
        invariant
            p <= deps@.len(),
            forall|q: int| 0 <= q < p ==> (#[trigger] deps@[q]).source < nodes,
        decreases deps@.len() - p,
    {
        if deps[p].source >= nodes {
            return false;
        }
        p = p + 1;
    }
    true
}

/// Adds one edge into `target` for each dependency, in order.
pub(crate) fn wire(graph: &mut Wiring, target: usize, deps: &Vec<Dependency>)
    requires
        target < graph_nodes(*old(graph)),
        in_range(deps@, graph_nodes(*old(graph)) as int),
        graph_edges(*old(graph)).len() + deps@.len() <= u32::MAX,
    ensures
        graph_nodes(*final(graph)) == graph_nodes(*old(graph)),
        graph_edges(*final(graph)) == graph_edges(*old(graph)) + links(deps@, target as int),
        dependencies(graph_edges(*final(graph)), target as int) == dependencies(
            graph_edges(*old(graph)),
            target as int,
        ) + deps@,
        forall|i: int|
            i != target ==> #[trigger] dependencies(graph_edges(*final(graph)), i) == dependencies(
                graph_edges(*old(graph)),
                i,
            ),
        edges_in_range(graph_nodes(*old(graph)), graph_edges(*old(graph))) ==> edges_in_range(
            graph_nodes(*final(graph)),
            graph_edges(*final(graph)),
        ),
{
    let ghost start = graph_edges(*graph);
    let mut p: usize = 0;
    assert(start + links(deps@, target as int).take(0) =~= start);
    assert(dependencies(start, target as int) + deps@.take(0) =~= dependencies(
        start,
        target as int,
    ));
    while p < deps.len()
        invariant
            p <= deps@.len(),
            target < graph_nodes(*graph),
            graph_nodes(*graph) == graph_nodes(*old(graph)),
            in_range(deps@, graph_nodes(*graph) as int),
            start == graph_edges(*old(graph)),
            start.len() + deps@.len() <= u32::MAX,
            graph_edges(*graph) == start + links(deps@, target as int).take(p as int),
            dependencies(graph_edges(*graph), target as int) == dependencies(start, target as int)
                + deps@.take(p as int),
            forall|i: int|
                i != target ==> #[trigger] dependencies(graph_edges(*graph), i) == dependencies(
                    start,
                    i,
                ),
            edges_in_range(graph_nodes(*graph), start) ==> edges_in_range(
                graph_nodes(*graph),
                graph_edges(*graph),
            ),
        decreases deps@.len() - p,
    {
        let dep = deps[p];
        let ghost before = graph_edges(*graph);
        let ghost link = link_of(dep, target as int);
        graph_add_edge(graph, dep.source, target, dep.arg_position, dep.access.code());
        proof {
            assert(links(deps@, target as int).take(p as int + 1) =~= links(
                deps@,
                target as int,
            ).take(p as int).push(link));
            assert(graph_edges(*graph) =~= start + links(deps@, target as int).take(p as int + 1));
            lemma_push_edge(before, link, target as int);
            assert(deps@.take(p as int + 1) =~= deps@.take(p as int).push(dep));
            assert(dependencies(graph_edges(*graph), target as int) =~= dependencies(
                start,
                target as int,
            ) + deps@.take(p as int + 1));
            assert forall|i: int| i != target implies #[trigger] dependencies(
                graph_edges(*graph),
                i,
            ) == dependencies(start, i) by {
                lemma_push_edge(before, link, i);
            }
        }
        p = p + 1;
    }
    assert(links(deps@, target as int).take(p as int) =~= links(deps@, target as int));
    assert(deps@.take(p as int) =~= deps@);
}

/// Asks the arbiter for every dependency of a task and detaches the values
/// that the task may change. A conflict between the dependencies is told
/// before a missing value; either way nothing is taken and no grant is left
/// out. On success the grants stay out until `release_all` gives them back.
pub(crate) fn acquire_guards(
    values: &mut Vec<Option<ErasedValue>>,
    locks: &mut Vec<LockState>,
    deps: &Vec<Dependency>,
) -> (r: Result<Vec<Option<ErasedValue>>, ReceiveError>)
    requires
        old(locks)@.len() == old(values)@.len(),
        in_range(deps@, old(values)@.len() as int),
        all_free(old(locks)@),
    ensures
        final(locks)@.len() == old(locks)@.len(),
        final(values)@.len() == old(values)@.len(),
        match r {
            Ok(taken) => {
                &&& !conflicting(deps@)
                &&& !missing(deps@, old(values)@)
                &&& holding(final(locks)@, deps@, deps@.len() as int)
                &&& all_granted(deps@, deps@.len() as int)
                &&& taken@.len() == deps@.len()
                &&& forall|p: int|
                    0 <= p < deps@.len() ==> #[trigger] taken@[p] == (
                    if deps@[p].access.is_exclusive() {
                        old(values)@[deps@[p].source as int]
                    } else {
                        None
                    })
                &&& forall|r: int|
                    0 <= r < old(values)@.len() ==> #[trigger] final(values)@[r] == (if writes_to(
                        deps@,
                        r,
                    ) {
                        None
                    } else {
                        old(values)@[r]
                    })
            },
            Err(e) => {
                &&& all_free(final(locks)@)
                &&& final(values)@ == old(values)@
                &&& e == if conflicting(deps@) {
                    ReceiveError::WouldBlock
                } else {
                    ReceiveError::Empty
                }
                &&& conflicting(deps@) || missing(deps@, old(values)@)
            },
        },
{
    if !acquire_all(locks, deps) {
        return Err(ReceiveError::WouldBlock);
    }
    if !all_present(values, deps) {
        release_all(locks, deps, deps.len());
        return Err(ReceiveError::Empty);
    }
    Ok(detach(values, deps))
}

/// Whether the sources of the dependencies hold values of the types that a
/// task expects of them, found by looking at the nodes.
pub(crate) fn check_types(nodes: &Vec<Node>, deps: &Vec<Dependency>, expected: &Vec<Expect>) -> (ok:
    bool)
    requires
        in_range(deps@, nodes@.len() as int),
        expected@.len() <= deps@.len(),
        forall|p: int|
            0 <= p < expected@.len() ==> (#[trigger] deps@[p]).access.is_exclusive()
                == expected@[p].exclusive,
    ensures
        ok == expects_met(nodes@, deps@, expected@),
{
    let mut p: usize = 0;
    while p < expected.len()
        invariant
            p <= expected@.len() <= deps@.len(),
            in_range(deps@, nodes@.len() as int),
            forall|q: int|
                0 <= q < p ==> nodes@[(#[trigger] deps@[q]).source as int].spec_tag()
                    == expected@[q].tag,
        decreases expected@.len() - p,
    {
        if nodes[deps[p].source].tag() != expected[p].tag {
            return false;
        }
        p = p + 1;
    }
    true
}

/// The guards made after detaching are the guards that the model grants:
/// what was detached is what the store held, and what is borrowed was not
/// detached.
proof fn lemma_guards_as_granted(
    deps: Seq<Dependency>,
    start: Values,
    detached: Values,
    taken: Values,
    guards: Seq<GuardView>,
)
    requires
        !conflicting(deps),
        in_range(deps, start.len() as int),
        detached.len() == start.len(),
        taken.len() == deps.len(),
        guards.len() == deps.len(),
        forall|p: int|
            0 <= p < deps.len() ==> #[trigger] taken[p] == (if deps[p].access.is_exclusive() {
                start[deps[p].source as int]
            } else {
                None
            }),
        forall|r: int|
            0 <= r < start.len() ==> #[trigger] detached[r] == (if writes_to(deps, r) {
                None
            } else {
                start[r]
            }),
        forall|p: int|
            0 <= p < deps.len() ==> #[trigger] guards[p] == (GuardView {
                exclusive: deps[p].access.is_exclusive(),
                value: if deps[p].access.is_exclusive() {
                    taken[p]->0
                } else {
                    detached[deps[p].source as int]->0
                },
            }),
    ensures
        guards == granted_guards(deps, start),
{
    assert forall|p: int| 0 <= p < deps.len() implies guards[p] == granted_guards(
        deps,
        start,
    )[p] by {
        let source = deps[p].source as int;
        if !deps[p].access.is_exclusive() && writes_to(deps, source) {
            let q = choose|q: int|
                0 <= q < deps.len() && (#[trigger] deps[q]).source == source
                    && deps[q].access.is_exclusive();
            assert(deps[p].source == deps[q].source);
        }
    }
    assert(guards =~= granted_guards(deps, start));
}

/// Restoring what the guards showed at the end puts the values back as the
/// model says.
proof fn lemma_put_back(
    deps: Seq<Dependency>,
    start: Values,
    detached: Values,
    before: Seq<GuardView>,
    after: Seq<GuardView>,
    written: Values,
    kept: Values,
)
    requires
        before == granted_guards(deps, start),
        same_access(before, after),
        written.len() == deps.len(),
        detached.len() == start.len(),
        kept.len() == start.len(),
        forall|r: int|
            0 <= r < start.len() && !writes_to(deps, r) ==> #[trigger] detached[r] == start[r],
        forall|p: int|
            0 <= p < after.len() ==> #[trigger] written[p] == (if after[p].exclusive {
                Some(after[p].value)
            } else {
                None
            }),
        forall|p: int|
            0 <= p < deps.len() && (#[trigger] deps[p]).access.is_exclusive()
                ==> kept[deps[p].source as int] == written[p],
        forall|r: int|
            0 <= r < start.len() && !writes_to(deps, r) ==> #[trigger] kept[r] == detached[r],
    ensures
        put_back(deps, after, start, kept),
{
    assert forall|p: int|
        0 <= p < deps.len() && (#[trigger] deps[p]).access.is_exclusive()
        implies kept[deps[p].source as int] == Some(after[p].value) by {
        assert(before[p].exclusive == after[p].exclusive);
    }
}

/// Runs the task that is the node `node`: asks for the guards of its
/// dependencies, hands them to the task, puts the values under the exclusive
/// ones back where they came from, stores what the task made, and gives the
/// grants back.
pub(crate) fn poll_task(
    nodes: &Vec<Node>,
    values: &mut Vec<Option<ErasedValue>>,
    locks: &mut Vec<LockState>,
    node: usize,
    deps: &Vec<Dependency>,
) -> (r: Result<(), ExecutionError>)
    requires
        node < nodes@.len(),
        nodes@[node as int].kind() == NodeType::Task,
        nodes@[node as int].spec_ready(),
        old(values)@.len() == nodes@.len(),
        old(locks)@.len() == nodes@.len(),
        in_range(deps@, nodes@.len() as int),
        all_free(old(locks)@),
    ensures
        final(values)@.len() == old(values)@.len(),
        final(locks)@.len() == old(locks)@.len(),
        all_free(final(locks)@),
        task_step(nodes@[node as int], node as int, deps@, old(values)@, final(values)@, r),
{
    let ghost start = values@;
    let taken = match acquire_guards(values, locks, deps) {
        Ok(taken) => taken,
        Err(e) => {
            return Err(ExecutionError::from_receive(e));
        },
    };
    let ghost detached = values@;
    let mut ctx = make_guards(values, deps, taken);
    let ghost before = ctx@;
    proof {
        lemma_guards_as_granted(deps@, start, detached, taken@, before);
    }
    let out = match &nodes[node] {
        Node::Task(op) => op.poll(&mut ctx),
        Node::Resource(_) => Err(ReceiveError::Closed),
    };
    let ghost after = ctx@;
    let written = ctx.into_written();
    restore(values, deps, written);
    release_all(locks, deps, deps.len());
    let ghost kept = values@;
    proof {
        lemma_put_back(deps@, start, detached, before, after, written@, kept);
    }
    let r = match out {
        Ok(made) => {
            values.set(node, Some(made));
            Ok(())
        },
        Err(e) => Err(ExecutionError::from_receive(e)),
    };
    assert(task_effect(
        nodes@[node as int],
        node as int,
        deps@,
        start,
        values@,
        r,
        after,
        kept,
        out,
    ));
    r
}

} // verus!
