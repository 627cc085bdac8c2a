//! The views of values that a task is handed: shared ones to look at,
//! exclusive ones to change.

use vstd::prelude::*;
use std::marker::PhantomData;
use crate::error::ReceiveError;
use crate::value::{Erasable, ErasedValue, TypeTag};

verus! {

/// One granted view of a value. A shared view borrows the value where it is
/// stored; an exclusive view holds the value, detached from the store until
/// the task is done with it.
pub enum Guard<'a> {
    Shared(&'a ErasedValue),
    Exclusive(ErasedValue),
}

/// What a guard stands for: the value it shows, and whether alone.
pub struct GuardView {
    pub exclusive: bool,
    pub value: ErasedValue,
}

/// What a task expects of one guard: whether it is exclusive, and the type
/// of the value under it.
#[derive(Debug, PartialEq, Eq, Clone, Copy, Structural)]
pub struct Expect {
    pub exclusive: bool,
    pub tag: TypeTag,
}

impl GuardView {
    /// Whether the guard is what is expected.
    pub open spec fn meets(self, expected: Expect) -> bool {
        self.exclusive == expected.exclusive && self.value.tag() == expected.tag
    }
}

/// Whether the first of the guards are what is expected, one for one.
pub open spec fn fits(guards: Seq<GuardView>, expected: Seq<Expect>) -> bool {
    &&& expected.len() <= guards.len()
    &&& forall|p: int| 0 <= p < expected.len() ==> (#[trigger] guards[p]).meets(expected[p])
}

impl<'a> Guard<'a> {
    /// What the guard stands for.
    pub open spec fn view(&self) -> GuardView {
        match self {
            Guard::Shared(v) => GuardView { exclusive: false, value: **v },
            Guard::Exclusive(v) => GuardView { exclusive: true, value: *v },
        }
    }
}

/// The views granted to one task, by argument position.
pub struct RwGuards<'a> {
    /// The guards that have not been handed on, the next one last.
    pub(crate) refs: Vec<Guard<'a>>,
}

impl<'a> RwGuards<'a> {
    /// The guards, by argument position.
    pub closed spec fn view(&self) -> Seq<GuardView> {
        Seq::new(self.refs@.len(), |p: int| self.refs@[self.refs@.len() - 1 - p]@)
    }

    /// No guards: what a task without dependencies is handed.
    pub fn new() -> (g: Self)
        ensures
            g@ == Seq::<GuardView>::empty(),
    {
        let g = RwGuards { refs: Vec::new() };
        assert(g@ =~= Seq::<GuardView>::empty());
        g
    }

    pub fn len(&self) -> (n: usize)
        ensures
            n == self@.len(),
    {
        self.refs.len()
    }

    /// Puts a guard in front of the others: it takes position 0.
    pub fn push_front(&mut self, guard: Guard<'a>)
        ensures
            final(self)@ == seq![guard@] + old(self)@,
    {
        self.refs.push(guard);
        assert(self@ =~= seq![guard@] + old(self)@);
    }

    /// Takes the guard at position 0, if there is one; those behind it move up.
    pub fn pop_front(&mut self) -> (guard: Option<Guard<'a>>)
        ensures
            old(self)@.len() == 0 ==> guard is None && final(self)@ == old(self)@,
            old(self)@.len() > 0 ==> guard is Some && guard->0@ == old(self)@[0] && final(self)@
                == old(self)@.drop_first(),
    {
        let guard = self.refs.pop();
        assert(old(self)@.len() == 0 ==> self@ =~= old(self)@);
        assert(old(self)@.len() > 0 ==> self@ =~= old(self)@.drop_first());
        guard
    }

    /// Ends the grants: the shared views are let go, and the values under the
    /// exclusive ones are handed out, each at its position.
    pub fn into_written(self) -> (written: Vec<Option<ErasedValue>>)
        ensures
            written@.len() == self@.len(),
            forall|p: int|
                0 <= p < self@.len() ==> #[trigger] written@[p] == (if self@[p].exclusive {
                    Some(self@[p].value)
                } else {
                    None
                }),
    {
        let mut rest = self;
        let mut written: Vec<Option<ErasedValue>> = Vec::new();
        let mut left: usize = rest.len();
        while left > 0
            invariant
                left == rest@.len(),
                written@.len() + rest@.len() == self@.len(),
                forall|p: int|
                    0 <= p < rest@.len() ==> #[trigger] rest@[p] == self@[written@.len() + p],
                forall|p: int|
                    0 <= p < written@.len() ==> #[trigger] written@[p] == (if self@[p].exclusive {
                        Some(self@[p].value)
                    } else {
                        None
                    }),
            decreases left,
        {
            let ghost before = rest@;
            let guard = rest.pop_front();
            assert(forall|p: int| 0 <= p < rest@.len() ==> rest@[p] == before[p + 1]);
            match guard {
                Some(Guard::Exclusive(value)) => {
                    written.push(Some(value));
                },
                _ => {
                    written.push(None);
                },
            }
            left = left - 1;
        }
        written
    }

    /// A shared view of the value at `position` as a `T`.
    pub fn read<T: Erasable>(&self, position: usize) -> (r: Result<&T, ReceiveError>)
        ensures
            position >= self@.len() ==> r is Err && r->Err_0 == ReceiveError::Empty,
            position < self@.len() && self@[position as int].value.tag() != T::tag() ==> r is Err
                && r->Err_0 == ReceiveError::Closed,
            position < self@.len() && self@[position as int].value.tag() == T::tag() ==> r is Ok
                && r->Ok_0.erased() == self@[position as int].value,
    {
        let n: usize = self.refs.len();
        if position >= n {
            return Err(ReceiveError::Empty);
        }
        let slot: &ErasedValue = match &self.refs[n - 1 - position] {
            Guard::Shared(v) => v,
            Guard::Exclusive(v) => v,
        };
        match T::peek(slot) {
            Some(v) => Ok(v),
            None => Err(ReceiveError::Closed),
        }
    }
}

/// A shared view of a value that is known to be a `T`.
pub struct ReadGuard<'a, T: Erasable> {
    guard: &'a ErasedValue,
    _marker: PhantomData<&'a T>,
}

impl<'a, T: Erasable> ReadGuard<'a, T> {
    #[verifier::type_invariant]
    spec fn well_typed(self) -> bool {
        self.guard.tag() == T::tag()
    }

    /// The value under the guard, in its stored form.
    pub closed spec fn view(&self) -> ErasedValue {
        *self.guard
    }

    /// Opens a stored value as a `T`; refuses when it holds another type.
    pub fn open(slot: &'a ErasedValue) -> (r: Result<Self, ReceiveError>)
        ensures
            slot.tag() == T::tag() ==> r is Ok && r->Ok_0@ == *slot,
            slot.tag() != T::tag() ==> r is Err && r->Err_0 == ReceiveError::Closed,
    {
        if slot.type_tag() == T::type_tag() {
            Ok(ReadGuard { guard: slot, _marker: PhantomData })
        } else {
            Err(ReceiveError::Closed)
        }
    }

    /// Gives the borrowed value back.
    pub fn close(self) -> (slot: &'a ErasedValue)
        ensures
            *slot == self@,
            slot.tag() == T::tag(),
    {
        proof {
            use_type_invariant(&self);
        }
        self.guard
    }

    /// The value.
    pub fn get(&self) -> (v: &T)
        ensures
            v.erased() == self@,
    {
        proof {
            use_type_invariant(self);
        }
        T::peek(self.guard).unwrap()
    }
}

impl<'a, T: Erasable> std::ops::Deref for ReadGuard<'a, T> {
    type Target = T;

    fn deref(&self) -> (v: &T)
        ensures
            v.erased() == self@,
    {
        self.get()
    }
}

/// An exclusive view of a value that is known to be a `T`.
pub struct WriteGuard<'a, T: Erasable> {
    guard: ErasedValue,
    _marker: PhantomData<&'a T>,
}

impl<'a, T: Erasable> WriteGuard<'a, T> {
    #[verifier::type_invariant]
    spec fn well_typed(self) -> bool {
        self.guard.tag() == T::tag()
    }

    /// The value under the guard, in its stored form.
    pub closed spec fn view(&self) -> ErasedValue {
        self.guard
    }

    /// Opens a detached value as a `T`; hands it back when it holds another type.
    pub fn open(slot: ErasedValue) -> (r: Result<Self, ErasedValue>)
        ensures
            slot.tag() == T::tag() ==> r is Ok && r->Ok_0@ == slot,
            slot.tag() != T::tag() ==> r is Err && r->Err_0 == slot,
    {
        if slot.type_tag() == T::type_tag() {
            Ok(WriteGuard { guard: slot, _marker: PhantomData })
        } else {
            Err(slot)
        }
    }

    /// Gives the value back, as it is now.
    pub fn close(self) -> (slot: ErasedValue)
        ensures
            slot == self@,
            slot.tag() == T::tag(),
    {
        proof {
            use_type_invariant(&self);
        }
        self.guard
    }

    /// The value as it is now.
    pub fn get(&self) -> (v: &T)
        ensures
            v.erased() == self@,
    {
        proof {
            use_type_invariant(self);
        }
        T::peek(&self.guard).unwrap()
    }

    /// Replaces the value.
    pub fn set(&mut self, value: T)
        ensures
            final(self)@ == value.erased(),
    {
        self.guard = value.wrap();
    }

}

impl<'a, T: Erasable> std::ops::Deref for WriteGuard<'a, T> {
    type Target = T;

    fn deref(&self) -> (v: &T)
        ensures
            v.erased() == self@,
    {
        self.get()
    }
}

} // verus!
