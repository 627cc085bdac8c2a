//! The nodes of the graph: resources, which hold a value, and tasks, which
//! compute one from the values they are handed.

use vstd::prelude::*;
use std::marker::PhantomData;
use crate::args::{lemma_shaped, Args};
use crate::error::ReceiveError;
use crate::guards::{fits, Expect, GuardView, RwGuards};
use crate::value::{Erasable, ErasedValue, TypeTag};

verus! {

/// What a node is.
#[derive(Debug, PartialEq, Eq, Clone, Copy, Structural)]
pub enum NodeType {
    Task,
    Resource,
}

/// Whether two sequences of guards differ at most in the values shown: they
/// are as many, and each is shared or exclusive, and shows a value of the
/// type, as the one in its place.
pub open spec fn same_access(a: Seq<GuardView>, b: Seq<GuardView>) -> bool {
    &&& a.len() == b.len()
    &&& forall|p: int|
        0 <= p < a.len() ==> (#[trigger] a[p]).exclusive == b[p].exclusive && a[p].value.tag()
            == b[p].value.tag()
}

/// A computation that the scheduler can run on the guards of its arguments.
pub trait TaskNode {
    /// Whether the computation may be run, whatever guards it is handed.
    spec fn ready(&self) -> bool;

    /// What the computation expects of the guards it is handed, one for one
    /// from the first. Handed those, it does not fail.
    spec fn wants(&self) -> Seq<Expect>;

    /// The type of what the computation makes.
    spec fn makes(&self) -> TypeTag;

    /// Whether, handed the guards `before`, the computation may leave them as
    /// `after` and end with `out`.
    spec fn fires(
        &self,
        before: Seq<GuardView>,
        after: Seq<GuardView>,
        out: Result<ErasedValue, ReceiveError>,
    ) -> bool;

    /// The type of what the computation makes.
    fn makes_tag(&self) -> (tag: TypeTag)
        ensures
            tag == self.makes(),
    ;

    /// Runs the computation once. It may change the values under exclusive
    /// guards; it hands every guard back. Handed the guards it wants it
    /// succeeds, and what it makes is of the type it says.
    fn poll<'a>(&self, ctx: &mut RwGuards<'a>) -> (out: Result<ErasedValue, ReceiveError>)
        requires
            self.ready(),
        ensures
            same_access(old(ctx)@, final(ctx)@),
            self.fires(old(ctx)@, final(ctx)@, out),
            fits(old(ctx)@, self.wants()) ==> out is Ok,
            out is Ok ==> out->Ok_0.tag() == self.makes(),
    ;
}

/// The typed views of a task's arguments, as the task's function takes them
/// and gives them back.
pub struct Inputs<'a, I: Args> {
    pub data: I::Data<'a>,
}

/// Whether a task made of `f` over the arguments `I`, handed the guards
/// `before`, may leave them as `after` and end with `out`.
///
/// Where the first guards are those of the arguments, `f` is applied to their
/// typed views; the views it gives back take their place in front of the
/// other guards, and what it made is the result. Where they are not, nothing
/// changes and the task ends with the reason.
pub open spec fn typed_fires<F, I, O>(
    f: F,
    before: Seq<GuardView>,
    after: Seq<GuardView>,
    out: Result<ErasedValue, ReceiveError>,
) -> bool where F: for <'a>Fn(Inputs<'a, I>) -> (Inputs<'a, I>, O), I: Args, O: Erasable {
    let arity = I::arity() as int;
    if arity <= before.len() && I::shaped(before.take(arity)) {
        exists|given: Inputs<'static, I>, back: Inputs<'static, I>, made: O|
            {
                &&& I::shows(given.data) == before.take(arity)
                &&& #[trigger] call_ensures(f, (given,), (back, made))
                &&& after == I::shows(back.data) + before.skip(arity)
                &&& out == Ok::<ErasedValue, ReceiveError>(made.erased())
            }
    } else {
        after == before && out == Err::<ErasedValue, ReceiveError>(I::refusal(before))
    }
}

/// A task made of a function over typed views: `I` names the arguments, `f`
/// takes their views and gives them back with what it produced, an `O`.
pub struct TaskData<F, I, O> {
    pub f: F,
    pub _inputs: PhantomData<I>,
    pub _output: PhantomData<O>,
}

impl<F, I, O> TaskData<F, I, O> where
    F: for <'a>Fn(Inputs<'a, I>) -> (Inputs<'a, I>, O),
    I: Args,
    O: Erasable,
 {
    pub(crate) fn new(f: F) -> (task: Self)
        ensures
            task.f == f,
    {
        Self { f, _inputs: PhantomData, _output: PhantomData }
    }
}

impl<F, I, O> TaskNode for TaskData<F, I, O> where
    F: for <'a>Fn(Inputs<'a, I>) -> (Inputs<'a, I>, O),
    I: Args,
    O: Erasable,
 {
    open spec fn ready(&self) -> bool {
        forall|given: Inputs<'static, I>| call_requires(self.f, (given,))
    }

    open spec fn wants(&self) -> Seq<Expect> {
        I::signature()
    }

    open spec fn makes(&self) -> TypeTag {
        O::tag()
    }

    fn makes_tag(&self) -> (tag: TypeTag) {
        O::type_tag()
    }

    open spec fn fires(
        &self,
        before: Seq<GuardView>,
        after: Seq<GuardView>,
        out: Result<ErasedValue, ReceiveError>,
    ) -> bool {
        typed_fires::<F, I, O>(self.f, before, after, out)
    }

    fn poll<'a>(&self, ctx: &mut RwGuards<'a>) -> (out: Result<ErasedValue, ReceiveError>) {
        let ghost before = ctx@;
        proof {
            if fits(before, I::signature()) {
                let first = before.take(I::arity() as int);
                I::lemma_signature(first);
                assert forall|p: int| 0 <= p < I::signature().len() implies (
                #[trigger] first[p]).meets(I::signature()[p]) by {
                    assert(before[p].meets(I::signature()[p]));
                }
            } else {
                I::lemma_signature(Seq::empty());
            }
        }
        match I::prepare_inputs(ctx) {
            Err(e) => Err(e),
            Ok(data) => {
                let given = Inputs { data };
                let (back, made) = (self.f)(given);
                I::release(back.data, ctx);
                proof {
                    let arity = I::arity() as int;
                    lemma_shaped::<I>(I::shows(given.data), I::shows(back.data));
                    assert(before =~= before.take(arity) + before.skip(arity));
                }
                Ok(made.wrap())
            },
        }
    }
}

/// A node of the graph: a task with its computation, or a resource with
/// the type of the value it was made to hold.
pub enum Node {
    Task(Box<dyn TaskNode>),
    Resource(TypeTag),
}

impl Node {
    pub open spec fn kind(&self) -> NodeType {
        match self {
            Node::Task(_) => NodeType::Task,
            Node::Resource(_) => NodeType::Resource,
        }
    }

    /// A task node that runs `f` on the views of the arguments that `I` names.
    pub fn task<F, I, O>(f: F) -> (node: Self) where
        F: for <'a>Fn(Inputs<'a, I>) -> (Inputs<'a, I>, O) + 'static,
        I: Args + 'static,
        O: Erasable,

        requires
            forall|given: Inputs<'static, I>| call_requires(f, (given,)),
        ensures
            node.kind() == NodeType::Task,
            node.spec_ready(),
            node.spec_wants() == I::signature(),
            node.spec_tag() == O::tag(),
            forall|
                before: Seq<GuardView>,
                after: Seq<GuardView>,
                out: Result<ErasedValue, ReceiveError>,
            |
                #[trigger] node.spec_fires(before, after, out) == typed_fires::<F, I, O>(
                    f,
                    before,
                    after,
                    out,
                ),
    {
        let td = TaskData::<F, I, O>::new(f);
        Node::Task(Box::new(td))
    }

    /// A resource node for `t`, and the stored form of `t` to keep with it.
    pub fn resource<T: Erasable>(t: T) -> (made: (Self, ErasedValue))
        ensures
            made.0 == Node::Resource(T::tag()),
            made.1 == t.erased(),
            made.1.tag() == T::tag(),
    {
        (Node::Resource(T::type_tag()), t.wrap())
    }

    /// Whether the node is a task that, handed the guards `before`, may leave
    /// them as `after` and end with `out`.
    pub open spec fn spec_fires(
        &self,
        before: Seq<GuardView>,
        after: Seq<GuardView>,
        out: Result<ErasedValue, ReceiveError>,
    ) -> bool {
        match self {
            Node::Task(t) => t.fires(before, after, out),
            Node::Resource(_) => false,
        }
    }

    /// What the node, if it is a task, expects of the guards it is handed.
    pub open spec fn spec_wants(&self) -> Seq<Expect> {
        match self {
            Node::Task(t) => t.wants(),
            Node::Resource(_) => Seq::empty(),
        }
    }

    /// The type of the node's values: what a resource was made to hold, or
    /// what a task makes.
    pub open spec fn spec_tag(&self) -> TypeTag {
        match self {
            Node::Task(t) => t.makes(),
            Node::Resource(tag) => *tag,
        }
    }

    /// The type of the node's values.
    pub fn tag(&self) -> (tag: TypeTag)
        ensures
            tag == self.spec_tag(),
    {
        match self {
            Node::Task(t) => t.makes_tag(),
            Node::Resource(tag) => *tag,
        }
    }

    /// Whether the node, if it is a task, may be run.
    pub open spec fn spec_ready(&self) -> bool {
        match self {
            Node::Task(t) => t.ready(),
            Node::Resource(_) => true,
        }
    }
}

} // verus!
