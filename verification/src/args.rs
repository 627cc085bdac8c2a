//! Dependency sets: what a task names as its inputs, and the typed views it
//! is handed for them.

use vstd::prelude::*;
use crate::arbiter::Access;
use crate::error::ReceiveError;
use crate::guards::{fits, Expect, Guard, GuardView, ReadGuard, RwGuards, WriteGuard};
use crate::handle::{Edge, Read, ResourceHandle, TaskHandle, Write};
use crate::value::Erasable;

verus! {

/// The arguments of a task. `Data` is what the task's operation is handed;
/// the edges say where each argument comes from and how it is used.
pub trait Args {
    type Data<'a>;

    /// How many guards the arguments take up.
    spec fn arity() -> nat;

    /// The node and the access of each argument, in order.
    spec fn sources(&self) -> Seq<(usize, Access)>;

    /// Whether the guards are those of a `Data`: as many, each shared or
    /// exclusive as its argument asks, each of its argument's type.
    spec fn shaped(guards: Seq<GuardView>) -> bool;

    /// Why `prepare_inputs` turns the guards down when their first ones are
    /// not those of a `Data`.
    spec fn refusal(guards: Seq<GuardView>) -> ReceiveError;

    /// The guards that a `Data` stands for.
    spec fn shows<'a>(data: Self::Data<'a>) -> Seq<GuardView>;

    /// What the arguments expect of their guards, one for one.
    spec fn signature() -> Seq<Expect>;

    /// The guards of a `Data` are those, as many as there are arguments, that
    /// are what the arguments expect.
    proof fn lemma_signature(guards: Seq<GuardView>)
        ensures
            Self::signature().len() == Self::arity(),
            Self::shaped(guards) <==> guards.len() == Self::arity() && fits(
                guards,
                Self::signature(),
            ),
    ;

    /// Each argument asks for its source alone exactly when it expects an
    /// exclusive guard.
    proof fn lemma_sources(&self)
        ensures
            self.sources().len() == Self::arity(),
            forall|p: int|
                0 <= p < self.sources().len() ==> (#[trigger] self.sources()[p]).1.is_exclusive()
                    == Self::signature()[p].exclusive,
    ;

    /// What the arguments expect of their guards, one for one.
    fn expected() -> (e: Vec<Expect>)
        ensures
            e@ == Self::signature(),
    ;

    /// Each argument as an edge: its source and, on the edge, its position
    /// among the arguments and its access.
    fn get_edge_info(&self) -> (info: Vec<(usize, Edge)>)
        ensures
            info@.len() == Self::arity(),
            info@.len() == self.sources().len(),
            forall|p: int|
                0 <= p < info@.len() ==> (#[trigger] info@[p]).0 == self.sources()[p].0
                    && info@[p].1.arg_idx == p && info@[p].1.meta == self.sources()[p].1,
    ;

    /// Takes the guards of the arguments from the front of `rw_guards` and
    /// opens them as typed views. Where they do not fit, nothing is taken.
    fn prepare_inputs<'a>(rw_guards: &mut RwGuards<'a>) -> (r: Result<Self::Data<'a>, ReceiveError>)
        ensures
            match r {
                Ok(data) => {
                    &&& Self::arity() <= old(rw_guards)@.len()
                    &&& Self::shaped(old(rw_guards)@.take(Self::arity() as int))
                    &&& Self::shows(data) == old(rw_guards)@.take(Self::arity() as int)
                    &&& final(rw_guards)@ == old(rw_guards)@.skip(Self::arity() as int)
                },
                Err(e) => {
                    &&& !(Self::arity() <= old(rw_guards)@.len() && Self::shaped(
                        old(rw_guards)@.take(Self::arity() as int),
                    ))
                    &&& e == Self::refusal(old(rw_guards)@)
                    &&& final(rw_guards)@ == old(rw_guards)@
                },
            },
    ;

    /// Closes the typed views and puts their guards back in front of `rw_guards`.
    fn release<'a>(data: Self::Data<'a>, rw_guards: &mut RwGuards<'a>)
        ensures
            Self::shaped(Self::shows(data)),
            final(rw_guards)@ == Self::shows(data) + old(rw_guards)@,
    ;
}

impl Args for () {
    type Data<'a> = ();

    open spec fn arity() -> nat {
        0
    }

    open spec fn sources(&self) -> Seq<(usize, Access)> {
        Seq::empty()
    }

    open spec fn shaped(guards: Seq<GuardView>) -> bool {
        guards.len() == 0
    }

    open spec fn refusal(guards: Seq<GuardView>) -> ReceiveError {
        ReceiveError::Empty
    }

    open spec fn shows<'a>(data: Self::Data<'a>) -> Seq<GuardView> {
        Seq::empty()
    }

    open spec fn signature() -> Seq<Expect> {
        Seq::empty()
    }

    proof fn lemma_signature(guards: Seq<GuardView>) {
    }

    proof fn lemma_sources(&self) {
    }

    fn expected() -> (e: Vec<Expect>) {
        Vec::new()
    }

    fn get_edge_info(&self) -> (info: Vec<(usize, Edge)>) {
        Vec::new()
    }

    fn prepare_inputs<'a>(rw_guards: &mut RwGuards<'a>) -> (r: Result<
        Self::Data<'a>,
        ReceiveError,
    >) {
        assert(rw_guards@.skip(0) =~= rw_guards@);
        Ok(())
    }

    fn release<'a>(data: Self::Data<'a>, rw_guards: &mut RwGuards<'a>) {
        assert(Seq::<GuardView>::empty() + rw_guards@ =~= rw_guards@);
    }
}

/// Whether the guards are one view of a `T`, exclusive or not as asked.
pub open spec fn one_view<T: Erasable>(guards: Seq<GuardView>, exclusive: bool) -> bool {
    &&& guards.len() == 1
    &&& guards[0].exclusive == exclusive
    &&& guards[0].value.tag() == T::tag()
}

/// What a single view of a `T` expects of its guard.
pub open spec fn one_expect<T: Erasable>(exclusive: bool) -> Seq<Expect> {
    seq![Expect { exclusive, tag: T::tag() }]
}

/// What a single view of a `T` expects of its guard.
fn single_expect<T: Erasable>(exclusive: bool) -> (e: Vec<Expect>)
    ensures
        e@ == one_expect::<T>(exclusive),
{
    let mut e: Vec<Expect> = Vec::new();
    e.push(Expect { exclusive, tag: T::type_tag() });
    assert(e@ =~= one_expect::<T>(exclusive));
    e
}

/// Why a single view is turned down: no guard is left, or it does not fit.
pub open spec fn one_refusal(guards: Seq<GuardView>) -> ReceiveError {
    if guards.len() == 0 {
        ReceiveError::Empty
    } else {
        ReceiveError::Closed
    }
}

/// Takes the first guard and opens it as a shared view of a `T`.
fn open_shared<'a, T: Erasable>(rw_guards: &mut RwGuards<'a>) -> (r: Result<
    ReadGuard<'a, T>,
    ReceiveError,
>)
    ensures
        match r {
            Ok(data) => {
                &&& 1 <= old(rw_guards)@.len()
                &&& one_view::<T>(old(rw_guards)@.take(1), false)
                &&& seq![GuardView { exclusive: false, value: data@ }] == old(rw_guards)@.take(1)
                &&& final(rw_guards)@ == old(rw_guards)@.skip(1)
            },
            Err(e) => {
                &&& !(1 <= old(rw_guards)@.len() && one_view::<T>(old(rw_guards)@.take(1), false))
                &&& e == one_refusal(old(rw_guards)@)
                &&& final(rw_guards)@ == old(rw_guards)@
            },
        },
{
    let ghost before = rw_guards@;
    match rw_guards.pop_front() {
        None => Err(ReceiveError::Empty),
        Some(Guard::Shared(slot)) => {
            match ReadGuard::<T>::open(slot) {
                Ok(data) => {
                    assert(before.take(1) =~= seq![GuardView { exclusive: false, value: data@ }]);
                    assert(before.skip(1) =~= before.drop_first());
                    Ok(data)
                },
                Err(e) => {
                    rw_guards.push_front(Guard::Shared(slot));
                    assert(rw_guards@ =~= before);
                    Err(e)
                },
            }
        },
        Some(Guard::Exclusive(slot)) => {
            rw_guards.push_front(Guard::Exclusive(slot));
            assert(rw_guards@ =~= before);
            Err(ReceiveError::Closed)
        },
    }
}

/// Takes the first guard and opens it as the exclusive view of a `T`.
fn open_exclusive<'a, T: Erasable>(rw_guards: &mut RwGuards<'a>) -> (r: Result<
    WriteGuard<'a, T>,
    ReceiveError,
>)
    ensures
        match r {
            Ok(data) => {
                &&& 1 <= old(rw_guards)@.len()
                &&& one_view::<T>(old(rw_guards)@.take(1), true)
                &&& seq![GuardView { exclusive: true, value: data@ }] == old(rw_guards)@.take(1)
                &&& final(rw_guards)@ == old(rw_guards)@.skip(1)
            },
            Err(e) => {
                &&& !(1 <= old(rw_guards)@.len() && one_view::<T>(old(rw_guards)@.take(1), true))
                &&& e == one_refusal(old(rw_guards)@)
                &&& final(rw_guards)@ == old(rw_guards)@
            },
        },
{
    let ghost before = rw_guards@;
    match rw_guards.pop_front() {
        None => Err(ReceiveError::Empty),
        Some(Guard::Exclusive(slot)) => {
            match WriteGuard::<T>::open(slot) {
                Ok(data) => {
                    assert(before.take(1) =~= seq![GuardView { exclusive: true, value: data@ }]);
                    assert(before.skip(1) =~= before.drop_first());
                    Ok(data)
                },
                Err(slot) => {
                    rw_guards.push_front(Guard::Exclusive(slot));
                    assert(rw_guards@ =~= before);
                    Err(ReceiveError::Closed)
                },
            }
        },
        Some(Guard::Shared(slot)) => {
            rw_guards.push_front(Guard::Shared(slot));
            assert(rw_guards@ =~= before);
            Err(ReceiveError::Closed)
        },
    }
}

/// One argument as the only edge of a dependency set.
fn single_edge(source: usize, meta: Access) -> (info: Vec<(usize, Edge)>)
    ensures
        info@ == seq![(source, Edge { arg_idx: 0, meta })],
{
    let mut info: Vec<(usize, Edge)> = Vec::new();
    info.push((source, Edge { arg_idx: 0, meta }));
    assert(info@ =~= seq![(source, Edge { arg_idx: 0, meta })]);
    info
}

/// What an upstream task produced, to look at.
impl<T: Erasable> Args for TaskHandle<T> {
    type Data<'a> = ReadGuard<'a, T>;

    open spec fn arity() -> nat {
        1
    }

    open spec fn sources(&self) -> Seq<(usize, Access)> {
        seq![(self.index(), Access::Consume)]
    }

    open spec fn shaped(guards: Seq<GuardView>) -> bool {
        one_view::<T>(guards, false)
    }

    open spec fn refusal(guards: Seq<GuardView>) -> ReceiveError {
        one_refusal(guards)
    }

    open spec fn shows<'a>(data: Self::Data<'a>) -> Seq<GuardView> {
        seq![GuardView { exclusive: false, value: data@ }]
    }

    open spec fn signature() -> Seq<Expect> {
        one_expect::<T>(false)
    }

    proof fn lemma_signature(guards: Seq<GuardView>) {
    }

    proof fn lemma_sources(&self) {
    }

    fn expected() -> (e: Vec<Expect>) {
        single_expect::<T>(false)
    }

    fn get_edge_info(&self) -> (info: Vec<(usize, Edge)>) {
        single_edge(self.node(), Access::Consume)
    }

    fn prepare_inputs<'a>(rw_guards: &mut RwGuards<'a>) -> (r: Result<
        Self::Data<'a>,
        ReceiveError,
    >) {
        open_shared(rw_guards)
    }

    fn release<'a>(data: Self::Data<'a>, rw_guards: &mut RwGuards<'a>) {
        rw_guards.push_front(Guard::Shared(data.close()));
    }
}

/// A resource, or what an upstream task produced, to look at.
impl<T: Erasable> Args for Read<ResourceHandle<T>> {
    type Data<'a> = ReadGuard<'a, T>;

    open spec fn arity() -> nat {
        1
    }

    open spec fn sources(&self) -> Seq<(usize, Access)> {
        seq![(self.0.index(), Access::Read)]
    }

    open spec fn shaped(guards: Seq<GuardView>) -> bool {
        one_view::<T>(guards, false)
    }

    open spec fn refusal(guards: Seq<GuardView>) -> ReceiveError {
        one_refusal(guards)
    }

    open spec fn shows<'a>(data: Self::Data<'a>) -> Seq<GuardView> {
        seq![GuardView { exclusive: false, value: data@ }]
    }

    open spec fn signature() -> Seq<Expect> {
        one_expect::<T>(false)
    }

    proof fn lemma_signature(guards: Seq<GuardView>) {
    }

    proof fn lemma_sources(&self) {
    }

    fn expected() -> (e: Vec<Expect>) {
        single_expect::<T>(false)
    }

    fn get_edge_info(&self) -> (info: Vec<(usize, Edge)>) {
        single_edge(self.0.node(), Access::Read)
    }

    fn prepare_inputs<'a>(rw_guards: &mut RwGuards<'a>) -> (r: Result<
        Self::Data<'a>,
        ReceiveError,
    >) {
        open_shared(rw_guards)
    }

    fn release<'a>(data: Self::Data<'a>, rw_guards: &mut RwGuards<'a>) {
        rw_guards.push_front(Guard::Shared(data.close()));
    }
}

impl<T: Erasable> Args for Read<TaskHandle<T>> {
    type Data<'a> = ReadGuard<'a, T>;

    open spec fn arity() -> nat {
        1
    }

    open spec fn sources(&self) -> Seq<(usize, Access)> {
        seq![(self.0.index(), Access::Read)]
    }

    open spec fn shaped(guards: Seq<GuardView>) -> bool {
        one_view::<T>(guards, false)
    }

    open spec fn refusal(guards: Seq<GuardView>) -> ReceiveError {
        one_refusal(guards)
    }

    open spec fn shows<'a>(data: Self::Data<'a>) -> Seq<GuardView> {
        seq![GuardView { exclusive: false, value: data@ }]
    }

    open spec fn signature() -> Seq<Expect> {
        one_expect::<T>(false)
    }

    proof fn lemma_signature(guards: Seq<GuardView>) {
    }

    proof fn lemma_sources(&self) {
    }

    fn expected() -> (e: Vec<Expect>) {
        single_expect::<T>(false)
    }

    fn get_edge_info(&self) -> (info: Vec<(usize, Edge)>) {
        single_edge(self.0.node(), Access::Read)
    }

    fn prepare_inputs<'a>(rw_guards: &mut RwGuards<'a>) -> (r: Result<
        Self::Data<'a>,
        ReceiveError,
    >) {
        open_shared(rw_guards)
    }

    fn release<'a>(data: Self::Data<'a>, rw_guards: &mut RwGuards<'a>) {
        rw_guards.push_front(Guard::Shared(data.close()));
    }
}

/// A resource, to change.
impl<T: Erasable> Args for Write<ResourceHandle<T>> {
    type Data<'a> = WriteGuard<'a, T>;

    open spec fn arity() -> nat {
        1
    }

    open spec fn sources(&self) -> Seq<(usize, Access)> {
        seq![(self.0.index(), Access::Write)]
    }

    open spec fn shaped(guards: Seq<GuardView>) -> bool {
        one_view::<T>(guards, true)
    }

    open spec fn refusal(guards: Seq<GuardView>) -> ReceiveError {
        one_refusal(guards)
    }

    open spec fn shows<'a>(data: Self::Data<'a>) -> Seq<GuardView> {
        seq![GuardView { exclusive: true, value: data@ }]
    }

    open spec fn signature() -> Seq<Expect> {
        one_expect::<T>(true)
    }

    proof fn lemma_signature(guards: Seq<GuardView>) {
    }

    proof fn lemma_sources(&self) {
    }

    fn expected() -> (e: Vec<Expect>) {
        single_expect::<T>(true)
    }

    fn get_edge_info(&self) -> (info: Vec<(usize, Edge)>) {
        single_edge(self.0.node(), Access::Write)
    }

    fn prepare_inputs<'a>(rw_guards: &mut RwGuards<'a>) -> (r: Result<
        Self::Data<'a>,
        ReceiveError,
    >) {
        open_exclusive(rw_guards)
    }

    fn release<'a>(data: Self::Data<'a>, rw_guards: &mut RwGuards<'a>) {
        rw_guards.push_front(Guard::Exclusive(data.close()));
    }
}

/// Two sets of arguments, one after the other.
impl<A: Args, B: Args> Args for (A, B) {
    type Data<'a> = (A::Data<'a>, B::Data<'a>);

    open spec fn arity() -> nat {
        A::arity() + B::arity()
    }

    open spec fn sources(&self) -> Seq<(usize, Access)> {
        self.0.sources() + self.1.sources()
    }

    open spec fn shaped(guards: Seq<GuardView>) -> bool {
        &&& guards.len() == A::arity() + B::arity()
        &&& A::shaped(guards.take(A::arity() as int))
        &&& B::shaped(guards.skip(A::arity() as int))
    }

    open spec fn refusal(guards: Seq<GuardView>) -> ReceiveError {
        if A::arity() <= guards.len() && A::shaped(guards.take(A::arity() as int)) {
            B::refusal(guards.skip(A::arity() as int))
        } else {
            A::refusal(guards)
        }
    }

    open spec fn shows<'a>(data: Self::Data<'a>) -> Seq<GuardView> {
        A::shows(data.0) + B::shows(data.1)
    }

    open spec fn signature() -> Seq<Expect> {
        A::signature() + B::signature()
    }

    proof fn lemma_signature(guards: Seq<GuardView>) {
        let first = A::arity() as int;
        A::lemma_signature(guards.take(first));
        B::lemma_signature(guards.skip(first));
        let both = A::signature() + B::signature();
        if guards.len() == A::arity() + B::arity() {
            if fits(guards, both) {
                assert forall|p: int| 0 <= p < A::signature().len() implies (
                #[trigger] guards.take(first)[p]).meets(A::signature()[p]) by {
                    assert(guards[p].meets(both[p]));
                }
                assert forall|p: int| 0 <= p < B::signature().len() implies (
                #[trigger] guards.skip(first)[p]).meets(B::signature()[p]) by {
                    assert(guards[first + p].meets(both[first + p]));
                }
            }
            if A::shaped(guards.take(first)) && B::shaped(guards.skip(first)) {
                assert forall|p: int| 0 <= p < both.len() implies (#[trigger] guards[p]).meets(
                    both[p],
                ) by {
                    if p < first {
                        assert(guards.take(first)[p].meets(A::signature()[p]));
                    } else {
                        assert(guards.skip(first)[p - first].meets(B::signature()[p - first]));
                    }
                }
            }
        }
    }

    proof fn lemma_sources(&self) {
        self.0.lemma_sources();
        self.1.lemma_sources();
        A::lemma_signature(Seq::empty());
        B::lemma_signature(Seq::empty());
    }

    fn expected() -> (e: Vec<Expect>) {
        let mut e = A::expected();
        let mut later = B::expected();
        e.append(&mut later);
        e
    }

    fn get_edge_info(&self) -> (info: Vec<(usize, Edge)>) {
        let mut info = self.0.get_edge_info();
        let later = self.1.get_edge_info();
        let ghost first = info@;
        let mut p: usize = 0;
        while p < later.len()
            invariant
                p <= later@.len(),
                first.len() == A::arity(),
                later@.len() == B::arity(),
                info@.len() == first.len() + p,
                forall|q: int| 0 <= q < first.len() ==> #[trigger] info@[q] == first[q],
                forall|q: int| 0 <= q < later@.len() ==> (#[trigger] later@[q]).1.arg_idx == q,
                forall|q: int|
                    0 <= q < p ==> (#[trigger] info@[first.len() + q]).0 == later@[q].0
                        && info@[first.len() + q].1.arg_idx == first.len() + q
                        && info@[first.len() + q].1.meta == later@[q].1.meta,
            decreases later@.len() - p,
        {
            let (source, edge) = later[p];
            let shifted: usize = info.len();
            info.push((source, Edge { arg_idx: shifted, meta: edge.meta }));
            p = p + 1;
        }
        assert forall|q: int| 0 <= q < info@.len() implies (#[trigger] info@[q]).0
            == self.sources()[q].0 && info@[q].1.arg_idx == q && info@[q].1.meta
            == self.sources()[q].1 by {
            if q >= first.len() {
                assert(info@[first.len() + (q - first.len())] == info@[q]);
            }
        }
        info
    }

    fn prepare_inputs<'a>(rw_guards: &mut RwGuards<'a>) -> (r: Result<
        Self::Data<'a>,
        ReceiveError,
    >) {
        let ghost before = rw_guards@;
        let ghost first = A::arity() as int;
        match A::prepare_inputs(rw_guards) {
            Err(e) => {
                proof {
                    if first + B::arity() <= before.len() {
                        assert(before.take(first + B::arity()).take(first) =~= before.take(first));
                    }
                }
                Err(e)
            },
            Ok(a) => {
                match B::prepare_inputs(rw_guards) {
                    Ok(b) => {
                        proof {
                            let both = first + B::arity();
                            assert(before.take(both).take(first) =~= before.take(first));
                            assert(before.take(both).skip(first) =~= before.skip(first).take(
                                B::arity() as int,
                            ));
                            assert(before.take(both) =~= A::shows(a) + B::shows(b));
                            assert(before.skip(both) =~= before.skip(first).skip(
                                B::arity() as int,
                            ));
                        }
                        Ok((a, b))
                    },
                    Err(e) => {
                        A::release(a, rw_guards);
                        proof {
                            let both = first + B::arity();
                            assert(rw_guards@ =~= before);
                            if both <= before.len() {
                                assert(before.take(both).skip(first) =~= before.skip(first).take(
                                    B::arity() as int,
                                ));
                            }
                        }
                        Err(e)
                    },
                }
            },
        }
    }

    fn release<'a>(data: Self::Data<'a>, rw_guards: &mut RwGuards<'a>) {
        let ghost before = rw_guards@;
        let (a, b) = data;
        B::release(b, rw_guards);
        A::release(a, rw_guards);
        proof {
            let first = A::arity() as int;
            let all = A::shows(a) + B::shows(b);
            A::lemma_signature(A::shows(a));
            B::lemma_signature(B::shows(b));
            assert(all.take(first) =~= A::shows(a));
            assert(all.skip(first) =~= B::shows(b));
            assert(rw_guards@ =~= all + before);
        }
    }
}

/// What is shaped as the arguments ask has the length, the kinds of access
/// and the types of anything else shaped so.
pub proof fn lemma_shaped<I: Args>(a: Seq<GuardView>, b: Seq<GuardView>)
    requires
        I::shaped(a),
        I::shaped(b),
    ensures
        a.len() == I::arity(),
        a.len() == b.len(),
        forall|p: int|
            0 <= p < a.len() ==> (#[trigger] a[p]).exclusive == b[p].exclusive && a[p].value.tag()
                == b[p].value.tag(),
{
    I::lemma_signature(a);
    I::lemma_signature(b);
    assert forall|p: int| 0 <= p < a.len() implies (#[trigger] a[p]).exclusive == b[p].exclusive
        && a[p].value.tag() == b[p].value.tag() by {
        assert(a[p].meets(I::signature()[p]));
        assert(b[p].meets(I::signature()[p]));
    }
}

} // verus!
