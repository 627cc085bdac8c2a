//! Handles: typed references to the nodes of a graph, and the wrappers that
//! say how a task wants to use what a handle refers to.

use vstd::prelude::*;
use std::marker::PhantomData;
use crate::arbiter::Access;

verus! {

/// A reference to a task and to the `T` it produces.
#[derive(Debug)]
pub struct TaskHandle<T> {
    pub(crate) idx: usize,
    pub(crate) _marker: PhantomData<T>,
}

impl<T> TaskHandle<T> {
    pub(crate) fn new(idx: usize) -> (h: Self)
        ensures
            h.index() == idx,
    {
        Self { idx, _marker: PhantomData }
    }

    /// The number of the node that the handle refers to.
    pub closed spec fn index(&self) -> usize {
        self.idx
    }

    pub fn node(&self) -> (idx: usize)
        ensures
            idx == self.index(),
    {
        self.idx
    }
}

/// A reference to a resource that holds a `T`.
#[derive(Debug)]
pub struct ResourceHandle<T> {
    pub(crate) idx: usize,
    pub(crate) _marker: PhantomData<T>,
}

impl<T> ResourceHandle<T> {
    pub(crate) fn new(idx: usize) -> (h: Self)
        ensures
            h.index() == idx,
    {
        Self { idx, _marker: PhantomData }
    }

    /// The number of the node that the handle refers to.
    pub closed spec fn index(&self) -> usize {
        self.idx
    }

    pub fn node(&self) -> (idx: usize)
        ensures
            idx == self.index(),
    {
        self.idx
    }
}

impl<T> Clone for TaskHandle<T> {
    fn clone(&self) -> (h: Self)
        ensures
            h == *self,
    {
        TaskHandle { idx: self.idx, _marker: PhantomData }
    }
}

impl<T> Copy for TaskHandle<T> {

}

impl<T> Clone for ResourceHandle<T> {
    fn clone(&self) -> (h: Self)
        ensures
            h == *self,
    {
        ResourceHandle { idx: self.idx, _marker: PhantomData }
    }
}

impl<T> Copy for ResourceHandle<T> {

}

/// Asks for a shared view of what the handle refers to.
#[derive(Debug)]
pub struct Read<T>(pub T);

/// Asks for the exclusive view of what the handle refers to.
#[derive(Debug)]
pub struct Write<T>(pub T);

/// What an edge of the graph carries: where the value goes among the task's
/// arguments, and how the task uses it.
#[derive(Debug, PartialEq, Eq, Clone, Copy, Structural)]
pub struct Edge {
    pub arg_idx: usize,
    pub meta: Access,
}

} // verus!
