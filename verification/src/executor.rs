//! The executor: a graph of resources and tasks, built node by node, and run
//! in an order that respects every edge.

use vstd::prelude::*;
use crate::arbiter::{Access, LockState};
use crate::args::Args;
use crate::error::{ExecutionError, ReceiveError};
use crate::graph::{
    graph_add_node,
    graph_edge_count,
    graph_edges,
    graph_new,
    graph_node_count,
    graph_nodes,
    graph_toposort,
    has_cycle,
    is_topological_order,
    lemma_ordered_is_acyclic,
    lists,
    sorted_order,
    Link,
    Wiring,
};
use crate::guards::{Expect, GuardView, ReadGuard};
use crate::handle::{ResourceHandle, TaskHandle};
use crate::model::{
    conflicting,
    dependencies,
    expects_met,
    found,
    in_position,
    lemma_dependencies_are_edges,
    lemma_ran_keeps_values,
    lemma_ran_next,
    lemma_scheduled_run_succeeds,
    lemma_task_added,
    lemma_task_step_keeps_types,
    lemma_wired_in_range,
    ran,
    run_of,
    step,
    stopped,
    well_typed,
    well_wired,
    Dependency,
    Values,
};
use crate::node::{typed_fires, Inputs, Node, NodeType};
use crate::scheduler::{
    acquire_all,
    all_free,
    check_range,
    check_types,
    declare,
    declared,
    dependencies_of,
    in_range,
    links,
    poll_task,
    release_all,
    wire,
};
use crate::value::{Erasable, ErasedValue, TypeTag};

verus! {

/// A graph of resources and tasks together with the values they hold.
pub struct Executor {
    graph: Wiring,
    nodes: Vec<Node>,
    values: Vec<Option<ErasedValue>>,
    locks: Vec<LockState>,
}

impl Executor {
    /// The nodes, in the order in which they were added.
    pub closed spec fn nodes(&self) -> Seq<Node> {
        self.nodes@
    }

    /// The edges, in the order in which they were added.
    pub closed spec fn edges(&self) -> Seq<Link> {
        graph_edges(self.graph)
    }

    /// The value of each node: that of a resource, or what a task last produced.
    pub closed spec fn values(&self) -> Values {
        self.values@
    }

    /// The dependencies of a node, by argument position.
    pub open spec fn dependencies(&self, node: int) -> Seq<Dependency> {
        dependencies(self.edges(), node)
    }

    /// The order in which a run visits the nodes, if the graph has no cycle.
    /// It depends on the nodes and the edges alone: as long as none is added,
    /// every run takes the same order.
    pub open spec fn schedule(&self) -> Seq<usize> {
        sorted_order(self.nodes().len(), self.edges())
    }

    /// What holds of every executor between two calls: the graph and the
    /// values cover the same nodes, edges join nodes that exist, the edges
    /// into a node take the argument positions from 0 up without a gap, no
    /// task asks twice for a node that it asks for alone, every task is
    /// given the guards it wants, every resource holds a value, every value
    /// is of the type of its node, and no grant is out.
    pub closed spec fn wf(&self) -> bool {
        &&& graph_nodes(self.graph) == self.nodes@.len()
        &&& self.locks@.len() == self.nodes@.len()
        &&& self.nodes@.len() <= u32::MAX
        &&& graph_edges(self.graph).len() <= u32::MAX
        &&& all_free(self.locks@)
        &&& well_wired(self.nodes@, graph_edges(self.graph))
        &&& well_typed(self.nodes@, self.values@)
        &&& forall|i: int| 0 <= i < self.nodes@.len() ==> (#[trigger] self.nodes@[i]).spec_ready()
        &&& forall|i: int|
            0 <= i < self.nodes@.len() ==> in_position(
                #[trigger] dependencies(graph_edges(self.graph), i),
            ) && in_range(dependencies(graph_edges(self.graph), i), self.nodes@.len() as int)
    }

    /// What `wf` says of the parts that can be seen from outside.
    pub proof fn lemma_wf(&self)
        requires
            self.wf(),
        ensures
            self.nodes().len() <= u32::MAX,
            well_wired(self.nodes(), self.edges()),
            well_typed(self.nodes(), self.values()),
            forall|i: int|
                0 <= i < self.nodes().len() ==> in_position(#[trigger] self.dependencies(i))
                    && in_range(self.dependencies(i), self.nodes().len() as int),
    {
    }

    /// Whether `node` is a resource of this graph that was made to hold
    /// values of the type `tag`.
    pub open spec fn holds(&self, node: int, tag: TypeTag) -> bool {
        0 <= node < self.nodes().len() && self.nodes()[node] == Node::Resource(tag)
    }

    /// A resource holds values of one type: a handle of any other type names
    /// no resource.
    pub proof fn lemma_one_type(&self, node: int, made: TypeTag, asked: TypeTag)
        requires
            self.wf(),
            self.holds(node, made),
            asked != made,
        ensures
            !self.holds(node, asked),
            self.values()[node] is Some,
            self.values()[node]->0.tag() == made,
    {
    }

    /// An executor without nodes.
    pub fn new() -> (executor: Self)
        ensures
            executor.wf(),
            executor.nodes() == Seq::<Node>::empty(),
            executor.edges() == Seq::<Link>::empty(),
            executor.values() == Seq::<Option<ErasedValue>>::empty(),
    {
        let executor = Executor {
            graph: graph_new(),
            nodes: Vec::new(),
            values: Vec::new(),
            locks: Vec::new(),
        };
        assert(executor.nodes@ =~= Seq::<Node>::empty());
        assert(executor.values@ =~= Seq::<Option<ErasedValue>>::empty());
        executor
    }

    /// How many nodes there are.
    pub fn len(&self) -> (n: usize)
        requires
            self.wf(),
        ensures
            n == self.nodes().len(),
    {
        graph_node_count(&self.graph)
    }

    /// How many edges there are.
    pub fn edge_count(&self) -> (n: usize)
        requires
            self.wf(),
        ensures
            n == self.edges().len(),
    {
        graph_edge_count(&self.graph)
    }

    /// Adds a resource that holds `data`.
    pub fn add_resource<T: Erasable>(&mut self, data: T) -> (handle: ResourceHandle<T>)
        requires
            old(self).wf(),
            old(self).nodes().len() < u32::MAX,
        ensures
            final(self).wf(),
            handle.index() == old(self).nodes().len(),
            final(self).nodes() == old(self).nodes().push(Node::Resource(T::tag())),
            final(self).values() == old(self).values().push(Some(data.erased())),
            final(self).edges() == old(self).edges(),
    {
        let (node, value) = Node::resource(data);
        let index = graph_add_node(&mut self.graph);
        self.nodes.push(node);
        self.values.push(Some(value));
        self.locks.push(LockState::Free);
        proof {
            let edges = graph_edges(self.graph);
            lemma_dependencies_are_edges(edges, index as int);
            assert(dependencies(edges, index as int).len() == 0);
        }
        ResourceHandle::new(index)
    }

    /// Whether a task with the dependencies `deps` that wants `wants` can be
    /// added: every dependency names a node of this graph, the nodes hold
    /// values of the types that the task expects, and no node is asked for
    /// twice where it is asked for alone.
    pub open spec fn takes(&self, deps: Seq<Dependency>, wants: Seq<Expect>) -> bool {
        &&& in_range(deps, self.nodes().len() as int)
        &&& expects_met(self.nodes(), deps, wants)
        &&& !conflicting(deps)
    }

    /// Why a task that cannot be added is refused.
    pub open spec fn refusal(&self, deps: Seq<Dependency>, wants: Seq<Expect>) -> ExecutionError {
        if !in_range(deps, self.nodes().len() as int) {
            ExecutionError::MissingDependencyValue
        } else if !expects_met(self.nodes(), deps, wants) {
            ExecutionError::TypeMismatch
        } else {
            ExecutionError::AccessConflict
        }
    }

    /// Checks the arguments of a task that is about to be added.
    fn vet<I: Args>(&mut self, handles: &I) -> (r: Result<Vec<Dependency>, ExecutionError>)
        requires
            old(self).wf(),
        ensures
            final(self).wf(),
            final(self).nodes() == old(self).nodes(),
            final(self).values() == old(self).values(),
            final(self).edges() == old(self).edges(),
            match r {
                Ok(deps) => deps@ == declared(handles.sources(), 0) && old(self).takes(
                    deps@,
                    I::signature(),
                ),
                Err(e) => !old(self).takes(declared(handles.sources(), 0), I::signature()) && e
                    == old(self).refusal(declared(handles.sources(), 0), I::signature()),
            },
    {
        let info = handles.get_edge_info();
        let deps = declare(&info, 0);
        let expected = I::expected();
        proof {
            handles.lemma_sources();
            I::lemma_signature(Seq::empty());
            assert(deps@ =~= declared(handles.sources(), 0));
        }
        if !check_range(&deps, self.nodes.len()) {
            return Err(ExecutionError::MissingDependencyValue);
        }
        if !check_types(&self.nodes, &deps, &expected) {
            return Err(ExecutionError::TypeMismatch);
        }
        if !acquire_all(&mut self.locks, &deps) {
            return Err(ExecutionError::AccessConflict);
        }
        release_all(&mut self.locks, &deps, deps.len());
        Ok(deps)
    }

    /// Adds a task that runs `f` on the views of the arguments that `handles`
    /// names, and wires it to them: the edge of each argument carries its
    /// position among the arguments.
    ///
    /// The task is refused, and nothing is added, when an argument names a
    /// node that this graph does not have (`MissingDependencyValue`), when it
    /// names a node whose values are not of the argument's type
    /// (`TypeMismatch`), or when two arguments name the same node and one of
    /// them asks for it alone (`AccessConflict`).
    pub fn add_task<F, I, O>(&mut self, handles: I, f: F) -> (r: Result<
        TaskHandle<O>,
        ExecutionError,
    >) where
        F: for <'a>Fn(Inputs<'a, I>) -> (Inputs<'a, I>, O) + 'static,
        I: Args + 'static,
        O: Erasable,

        requires
            old(self).wf(),
            old(self).nodes().len() < u32::MAX,
            old(self).edges().len() + I::arity() <= u32::MAX,
            forall|given: Inputs<'static, I>| call_requires(f, (given,)),
        ensures
            final(self).wf(),
            match r {
                Ok(handle) => {
                    &&& old(self).takes(declared(handles.sources(), 0), I::signature())
                    &&& handle.index() == old(self).nodes().len()
                    &&& final(self).nodes().len() == old(self).nodes().len() + 1
                    &&& final(self).nodes().take(old(self).nodes().len() as int) == old(
                        self,
                    ).nodes()
                    &&& final(self).nodes().last().kind() == NodeType::Task
                    &&& final(self).nodes().last().spec_wants() == I::signature()
                    &&& final(self).nodes().last().spec_tag() == O::tag()
                    &&& forall|
                        before: Seq<GuardView>,
                        after: Seq<GuardView>,
                        out: Result<ErasedValue, ReceiveError>,
                    |
                        #[trigger] final(self).nodes().last().spec_fires(before, after, out)
                            == typed_fires::<F, I, O>(f, before, after, out)
                    &&& final(self).values() == old(self).values().push(None)
                    &&& final(self).edges() == old(self).edges() + links(
                        declared(handles.sources(), 0),
                        handle.index() as int,
                    )
                    &&& final(self).dependencies(handle.index() as int) == declared(
                        handles.sources(),
                        0,
                    )
                    &&& forall|i: int|
                        0 <= i < old(self).nodes().len() ==> #[trigger] final(self).dependencies(i)
                            == old(self).dependencies(i)
                },
                Err(e) => {
                    &&& final(self).nodes() == old(self).nodes()
                    &&& final(self).values() == old(self).values()
                    &&& final(self).edges() == old(self).edges()
                    &&& !old(self).takes(declared(handles.sources(), 0), I::signature())
                    &&& e == old(self).refusal(declared(handles.sources(), 0), I::signature())
                },
            },
    {
        let deps = match self.vet(&handles) {
            Ok(deps) => deps,
            Err(e) => {
                return Err(e);
            },
        };
        let ghost nodes = self.nodes@;
        let ghost edges = graph_edges(self.graph);
        let ghost values = self.values@;
        proof {
            handles.lemma_sources();
        }
        let task = Node::task::<F, I, O>(f);
        let index = graph_add_node(&mut self.graph);
        self.nodes.push(task);
        self.values.push(None);
        self.locks.push(LockState::Free);
        wire(&mut self.graph, index, &deps);
        proof {
            lemma_dependencies_are_edges(edges, index as int);
            assert(dependencies(edges, index as int) =~= Seq::<Dependency>::empty());
            assert(Seq::<Dependency>::empty() + deps@ =~= deps@);
            assert(self.nodes@.take(index as int) =~= nodes);
            assert(self.nodes@.last() == self.nodes@[index as int]);
            lemma_task_added(nodes, edges, values, task, deps@, graph_edges(self.graph));
            lemma_wired_in_range(self.nodes@.len(), graph_edges(self.graph));
        }
        Ok(TaskHandle::new(index))
    }

    /// A shared view of the value that a resource holds. It is refused with
    /// `MissingDependencyValue` when the handle names no resource of this
    /// graph, and with `TypeMismatch` when the resource it names was made to
    /// hold another type than `T`: a handle of another type never opens a value.
    pub fn read<'a, T: Erasable>(&'a self, resource_handle: ResourceHandle<T>) -> (r: Result<
        ReadGuard<'a, T>,
        ExecutionError,
    >)
        requires
            self.wf(),
        ensures
            match r {
                Ok(guard) => self.holds(resource_handle.index() as int, T::tag())
                    && self.values()[resource_handle.index() as int] == Some(guard@),
                Err(e) => !self.holds(resource_handle.index() as int, T::tag()) && e == (
                if self.is_resource(resource_handle.index() as int) {
                    ExecutionError::TypeMismatch
                } else {
                    ExecutionError::MissingDependencyValue
                }),
            },
    {
        let index = resource_handle.node();
        if index >= self.nodes.len() {
            return Err(ExecutionError::MissingDependencyValue);
        }
        match &self.nodes[index] {
            Node::Task(_) => {
                return Err(ExecutionError::MissingDependencyValue);
            },
            Node::Resource(_) => {},
        }
        match &self.values[index] {
            None => Err(ExecutionError::MissingDependencyValue),
            Some(value) => match ReadGuard::<T>::open(value) {
                Ok(guard) => Ok(guard),
                Err(e) => Err(ExecutionError::from_receive(e)),
            },
        }
    }

    /// Whether `node` is a resource of this graph.
    pub open spec fn is_resource(&self, node: int) -> bool {
        0 <= node < self.nodes().len() && self.nodes()[node].kind() == NodeType::Resource
    }

    /// A shared view of the value that a resource holds. There is none when
    /// the handle does not name a resource of this graph that was made to
    /// hold a `T`.
    pub fn get<'a, T: Erasable>(&'a self, resource_handle: ResourceHandle<T>) -> (r: Option<
        ReadGuard<'a, T>,
    >)
        requires
            self.wf(),
        ensures
            r is Some <==> self.holds(resource_handle.index() as int, T::tag()),
            r is Some ==> self.values()[resource_handle.index() as int] == Some(r->0@),
    {
        match self.read(resource_handle) {
            Ok(guard) => Some(guard),
            Err(_) => None,
        }
    }

    /// The exclusive view of the value that a resource holds: what is written
    /// through it is what the resource holds afterwards. There is none when
    /// the handle does not name a resource of this graph that was made to
    /// hold a `T`.
    pub fn get_mut<'a, T: Erasable>(&'a mut self, resource_handle: ResourceHandle<T>) -> (r: Option<
        &'a mut T,
    >)
        requires
            old(self).wf(),
        ensures
            final(self).wf(),
            final(self).nodes() == old(self).nodes(),
            final(self).edges() == old(self).edges(),
            r is Some <==> old(self).holds(resource_handle.index() as int, T::tag()),
            r is Some ==> old(self).values()[resource_handle.index() as int] == Some(
                r->0.erased(),
            ) && final(self).values() == old(self).values().update(
                resource_handle.index() as int,
                Some(final(r->0).erased()),
            ),
            r is None ==> final(self).values() == old(self).values(),
    {
        let index = resource_handle.node();
        if index >= self.nodes.len() {
            return None;
        }
        match &self.nodes[index] {
            Node::Task(_) => {
                return None;
            },
            Node::Resource(_) => {},
        }
        proof {
            assert forall|v: T| (#[trigger] v.erased()).tag() == T::tag() by {
                v.lemma_tag();
            }
        }
        match self.values[index].as_mut() {
            None => None,
            Some(value) => T::peek_mut(value),
        }
    }

    /// Whether `node` is a task of this graph that has produced a value of
    /// the type `tag`.
    pub open spec fn made(&self, node: int, tag: TypeTag) -> bool {
        &&& 0 <= node < self.nodes().len()
        &&& self.nodes()[node].kind() == NodeType::Task
        &&& self.values()[node] is Some
        &&& self.values()[node]->0.tag() == tag
    }

    /// A shared view of what a task last produced. There is none when the
    /// handle does not name a task of this graph, when the task has not
    /// produced anything yet, or when what it produced is not a `T`.
    pub fn output<'a, T: Erasable>(&'a self, task_handle: TaskHandle<T>) -> (r: Option<
        ReadGuard<'a, T>,
    >)
        requires
            self.wf(),
        ensures
            r is Some <==> self.made(task_handle.index() as int, T::tag()),
            r is Some ==> self.values()[task_handle.index() as int] == Some(r->0@),
    {
        let index = task_handle.node();
        if index >= self.nodes.len() {
            return None;
        }
        match &self.nodes[index] {
            Node::Resource(_) => {
                return None;
            },
            Node::Task(_) => {},
        }
        match &self.values[index] {
            None => None,
            Some(value) => match ReadGuard::open(value) {
                Ok(guard) => Some(guard),
                Err(_) => None,
            },
        }
    }

    /// Adds dependencies to a task that is already in the graph: it will run
    /// after the nodes that `upstream` names. The new edges take the argument
    /// positions after those the task has.
    ///
    /// Nothing is added when `task` is not a task of this graph or `upstream`
    /// names a node that this graph does not have (`MissingDependencyValue`),
    /// or when the task would then ask twice for a node that it asks for
    /// alone (`AccessConflict`).
    pub fn add_dependency<T, I: Args>(&mut self, task: TaskHandle<T>, upstream: I) -> (r: Result<
        (),
        ExecutionError,
    >)
        requires
            old(self).wf(),
            old(self).edges().len() + I::arity() <= u32::MAX,
        ensures
            final(self).wf(),
            final(self).nodes() == old(self).nodes(),
            final(self).values() == old(self).values(),
            match r {
                Ok(_) => {
                    &&& old(self).accepts(task.index() as int, upstream.sources())
                    &&& final(self).edges() == old(self).edges() + links(
                        old(self).extension(task.index() as int, upstream.sources()),
                        task.index() as int,
                    )
                    &&& final(self).dependencies(task.index() as int) == old(self).dependencies(
                        task.index() as int,
                    ) + old(self).extension(task.index() as int, upstream.sources())
                    &&& forall|i: int|
                        i != task.index() ==> #[trigger] final(self).dependencies(i) == old(
                            self,
                        ).dependencies(i)
                },
                Err(e) => {
                    &&& final(self).edges() == old(self).edges()
                    &&& !old(self).accepts(task.index() as int, upstream.sources())
                    &&& e == if old(self).reaches(task.index() as int, upstream.sources()) {
                        ExecutionError::AccessConflict
                    } else {
                        ExecutionError::MissingDependencyValue
                    }
                },
            },
    {
        let target = task.node();
        if target >= self.nodes.len() {
            return Err(ExecutionError::MissingDependencyValue);
        }
        match &self.nodes[target] {
            Node::Resource(_) => {
                return Err(ExecutionError::MissingDependencyValue);
            },
            Node::Task(_) => {},
        }
        let mut all = dependencies_of(&self.graph, target);
        let ghost had = all@;
        let info = upstream.get_edge_info();
        proof {
            lemma_dependencies_are_edges(graph_edges(self.graph), target as int);
        }
        let more = declare(&info, all.len());
        assert(more@ =~= self.extension(target as int, upstream.sources()));
        if !check_range(&more, self.nodes.len()) {
            return Err(ExecutionError::MissingDependencyValue);
        }
        let mut p: usize = 0;
        while p < more.len()
            invariant
                p <= more@.len(),
                all@ == had + more@.take(p as int),
            decreases more@.len() - p,
        {
            all.push(more[p]);
            assert(more@.take(p as int + 1) =~= more@.take(p as int).push(more@[p as int]));
            p = p + 1;
        }
        assert(more@.take(p as int) =~= more@);
        assert(in_range(all@, self.nodes@.len() as int));
        if !acquire_all(&mut self.locks, &all) {
            return Err(ExecutionError::AccessConflict);
        }
        release_all(&mut self.locks, &all, all.len());
        wire(&mut self.graph, target, &more);
        proof {
            assert(in_position(had + more@));
        }
        Ok(())
    }

    /// The dependencies that `sources` would add to `node`.
    pub open spec fn extension(&self, node: int, sources: Seq<(usize, Access)>) -> Seq<Dependency> {
        declared(sources, self.dependencies(node).len() as int)
    }

    /// Whether `node` is a task of this graph and every one of `sources` a node of it.
    pub open spec fn reaches(&self, node: int, sources: Seq<(usize, Access)>) -> bool {
        &&& 0 <= node < self.nodes().len()
        &&& self.nodes()[node].kind() == NodeType::Task
        &&& in_range(self.extension(node, sources), self.nodes().len() as int)
    }

    /// Whether `sources` can be added to the dependencies of `node`.
    pub open spec fn accepts(&self, node: int, sources: Seq<(usize, Access)>) -> bool {
        &&& self.reaches(node, sources)
        &&& !conflicting(self.dependencies(node) + self.extension(node, sources))
    }

    /// Visits one node. A resource is left as it is. A task is handed the
    /// guards of its dependencies and run; the values it was handed alone go
    /// back to where they came from, and what it made becomes its value.
    pub fn visit(&mut self, node: usize) -> (r: Result<(), ExecutionError>)
        requires
            old(self).wf(),
        ensures
            final(self).wf(),
            final(self).nodes() == old(self).nodes(),
            final(self).edges() == old(self).edges(),
            step(
                old(self).nodes(),
                old(self).edges(),
                node as int,
                old(self).values(),
                final(self).values(),
                r,
            ),
    {
        if node >= self.nodes.len() {
            return Err(ExecutionError::MissingDependencyValue);
        }
        match &self.nodes[node] {
            Node::Resource(_) => {
                return Ok(());
            },
            Node::Task(_) => {},
        }
        let ghost start = self.values@;
        let deps = dependencies_of(&self.graph, node);
        let r = poll_task(&self.nodes, &mut self.values, &mut self.locks, node, &deps);
        proof {
            lemma_task_step_keeps_types(self.nodes@, node as int, deps@, start, self.values@, r);
        }
        r
    }

    /// Visits the nodes of `order` in turn and stops at the first that fails.
    pub fn execute_in(&mut self, order: &Vec<usize>) -> (r: Result<(), ExecutionError>)
        requires
            old(self).wf(),
        ensures
            final(self).wf(),
            final(self).nodes() == old(self).nodes(),
            final(self).edges() == old(self).edges(),
            run_of(
                old(self).nodes(),
                old(self).edges(),
                order@,
                old(self).values(),
                final(self).values(),
                r,
            ),
    {
        let mut k: usize = 0;
        while k < order.len()
            invariant
                k <= order@.len(),
                self.wf(),
                self.nodes() == old(self).nodes(),
                self.edges() == old(self).edges(),
                ran(
                    old(self).nodes(),
                    old(self).edges(),
                    order@,
                    k as int,
                    old(self).values(),
                    self.values(),
                ),
            decreases order@.len() - k,
        {
            let ghost mid = self.values();
            let visited = self.visit(order[k]);
            match visited {
                Ok(()) => {
                    proof {
                        let next = k as int + 1;
                        assert(visited->Ok_0 == ());
                        assert(visited == Ok::<(), ExecutionError>(()));
                        assert(ran(
                            old(self).nodes(),
                            old(self).edges(),
                            order@,
                            next - 1,
                            old(self).values(),
                            mid,
                        ));
                        assert(step(
                            old(self).nodes(),
                            old(self).edges(),
                            order@[next - 1] as int,
                            mid,
                            self.values(),
                            Ok(()),
                        ));
                        lemma_ran_next(
                            old(self).nodes(),
                            old(self).edges(),
                            order@,
                            next,
                            old(self).values(),
                            mid,
                            self.values(),
                        );
                    }
                },
                Err(e) => {
                    assert(stopped(
                        old(self).nodes(),
                        old(self).edges(),
                        order@,
                        k as int,
                        old(self).values(),
                        self.values(),
                        e,
                    ));
                    return Err(e);
                },
            }
            k = k + 1;
        }
        Ok(())
    }

    /// Runs the graph once: every node is visited, each after the nodes it
    /// depends on, in the order of the schedule. A graph with a cycle is
    /// refused before any task is run; on any other graph the run succeeds.
    pub fn execute(&mut self) -> (r: Result<(), ExecutionError>)
        requires
            old(self).wf(),
        ensures
            final(self).wf(),
            final(self).nodes() == old(self).nodes(),
            final(self).edges() == old(self).edges(),
            match r {
                Ok(_) => {
                    &&& !has_cycle(old(self).edges())
                    &&& is_topological_order(
                        old(self).nodes().len(),
                        old(self).edges(),
                        old(self).schedule(),
                    )
                    &&& ran(
                        old(self).nodes(),
                        old(self).edges(),
                        old(self).schedule(),
                        old(self).nodes().len() as int,
                        old(self).values(),
                        final(self).values(),
                    )
                },
                Err(e) => {
                    &&& has_cycle(old(self).edges())
                    &&& e == ExecutionError::CyclicGraph
                    &&& final(self).values() == old(self).values()
                },
            },
    {
        match graph_toposort(&self.graph) {
            None => Err(ExecutionError::CyclicGraph),
            Some(order) => {
                let ghost start = self.values();
                proof {
                    lemma_ordered_is_acyclic(self.nodes@.len(), graph_edges(self.graph), order@);
                }
                let r = self.execute_in(&order);
                proof {
                    lemma_scheduled_run_succeeds(
                        self.nodes(),
                        self.edges(),
                        order@,
                        order@,
                        start,
                        self.values(),
                        r,
                    );
                }
                r
            },
        }
    }

    /// The value of a node as a `T`: that of a resource, or what a task last
    /// produced. It is refused with `MissingDependencyValue` when there is no
    /// such node or the node has no value, and with `TypeMismatch` when the
    /// value is not a `T`.
    pub fn fetch<'a, T: Erasable>(&'a self, node: usize) -> (r: Result<
        ReadGuard<'a, T>,
        ExecutionError,
    >)
        requires
            self.wf(),
        ensures
            match r {
                Ok(guard) => found(self.values(), node as int, T::tag()) == Ok::<
                    ErasedValue,
                    ExecutionError,
                >(guard@),
                Err(e) => found(self.values(), node as int, T::tag()) == Err::<
                    ErasedValue,
                    ExecutionError,
                >(e),
            },
    {
        if node >= self.values.len() {
            return Err(ExecutionError::MissingDependencyValue);
        }
        match &self.values[node] {
            None => Err(ExecutionError::MissingDependencyValue),
            Some(value) => match ReadGuard::open(value) {
                Ok(guard) => Ok(guard),
                Err(e) => Err(ExecutionError::from_receive(e)),
            },
        }
    }

    /// Runs the graph up to a task and hands out what the task produced:
    /// the nodes are visited in the order of the schedule, and the run stops
    /// once `target` has been visited.
    ///
    /// A target that is not a node of this graph is refused with
    /// `MissingDependencyValue` and a graph with a cycle with `CyclicGraph`,
    /// both before any task is run. On any other graph the run succeeds, and
    /// the value is handed out unless it is of another type than `T`
    /// (`TypeMismatch`).
    pub fn execute_target<'a, T: Erasable>(&'a mut self, target: TaskHandle<T>) -> (r: Result<
        ReadGuard<'a, T>,
        ExecutionError,
    >)
        requires
            old(self).wf(),
        ensures
            final(self).wf(),
            final(self).nodes() == old(self).nodes(),
            final(self).edges() == old(self).edges(),
            !old(self).runs_to(target.index() as int) ==> final(self).values() == old(
                self,
            ).values(),
            old(self).runs_to(target.index() as int) ==> ran(
                old(self).nodes(),
                old(self).edges(),
                up_to(old(self).schedule(), target.index() as int),
                up_to(old(self).schedule(), target.index() as int).len() as int,
                old(self).values(),
                final(self).values(),
            ),
            match r {
                Ok(guard) => {
                    &&& old(self).runs_to(target.index() as int)
                    &&& old(self).nodes()[target.index() as int].spec_tag() == T::tag()
                    &&& final(self).values()[target.index() as int] == Some(guard@)
                },
                Err(e) => {
                    &&& e == (if target.index() >= old(self).nodes().len() {
                        ExecutionError::MissingDependencyValue
                    } else if has_cycle(old(self).edges()) {
                        ExecutionError::CyclicGraph
                    } else {
                        ExecutionError::TypeMismatch
                    })
                    &&& old(self).runs_to(target.index() as int) ==> old(
                        self,
                    ).nodes()[target.index() as int].spec_tag() != T::tag()
                },
            },
    {
        let index = target.node();
        if index >= self.nodes.len() {
            return Err(ExecutionError::MissingDependencyValue);
        }
        let order = match graph_toposort(&self.graph) {
            None => {
                return Err(ExecutionError::CyclicGraph);
            },
            Some(order) => order,
        };
        proof {
            lemma_ordered_is_acyclic(self.nodes@.len(), graph_edges(self.graph), order@);
            assert(lists(order@, index as int));
        }
        let prefix = leading(&order, index);
        let ghost start = self.values();
        let ran = self.execute_in(&prefix);
        proof {
            lemma_scheduled_run_succeeds(
                self.nodes(),
                self.edges(),
                order@,
                prefix@,
                start,
                self.values(),
                ran,
            );
            lemma_wired_in_range(self.nodes@.len(), graph_edges(self.graph));
            lemma_ran_keeps_values(
                self.nodes(),
                self.edges(),
                prefix@,
                prefix@.len() as int,
                start,
                self.values(),
            );
            assert(prefix@[prefix@.len() - 1] == index);
        }
        self.fetch(index)
    }

    /// Whether a run up to `node` takes place: the node is one of this graph
    /// and the graph has no cycle.
    pub open spec fn runs_to(&self, node: int) -> bool {
        0 <= node < self.nodes().len() && !has_cycle(self.edges())
    }
}

/// Where `node` first stands in `order`; the length of `order` if nowhere.
pub open spec fn first_place(order: Seq<usize>, node: int) -> int
    decreases order.len(),
{
    if order.len() == 0 || order[0] == node {
        0
    } else {
        1 + first_place(order.drop_first(), node)
    }
}

/// The part of `order` that ends with `node`; all of it if `node` is not there.
pub open spec fn up_to(order: Seq<usize>, node: int) -> Seq<usize> {
    order.take(first_place(order, node) + 1)
}

/// Cuts an order off behind a node.
fn leading(order: &Vec<usize>, node: usize) -> (prefix: Vec<usize>)
    requires
        lists(order@, node as int),
    ensures
        prefix@ == up_to(order@, node as int),
        0 < prefix@.len() <= order@.len(),
        prefix@.last() == node,
        forall|k: int| 0 <= k < prefix@.len() ==> #[trigger] prefix@[k] == order@[k],
{
    let mut prefix: Vec<usize> = Vec::new();
    let mut k: usize = 0;
    assert(order@.skip(0) =~= order@);
    while k < order.len() && order[k] != node
        invariant
            k <= order@.len(),
            prefix@ == order@.take(k as int),
            lists(order@, node as int),
            forall|j: int| 0 <= j < k ==> order@[j] != node,
            first_place(order@, node as int) == k + first_place(order@.skip(k as int), node as int),
        decreases order@.len() - k,
    {
        proof {
            let rest = order@.skip(k as int);
            assert(rest[0] == order@[k as int]);
            assert(rest.drop_first() =~= order@.skip(k as int + 1));
            assert(order@.take(k as int + 1) =~= order@.take(k as int).push(order@[k as int]));
        }
        prefix.push(order[k]);
        k = k + 1;
    }
    proof {
        let at = choose|i: int| 0 <= i < order@.len() && #[trigger] order@[i] == node;
        assert(k <= at);
        let rest = order@.skip(k as int);
        assert(rest[0] == order@[k as int]);
        assert(order@.take(k as int + 1) =~= order@.take(k as int).push(order@[k as int]));
    }
    prefix.push(order[k]);
    prefix
}

} // verus!
