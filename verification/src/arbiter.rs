//! The access arbiter: any number of readers or one writer per value.
//!
//! A task may look at a value only while it holds a grant for it. A grant is
//! asked for without waiting: it is given at once or refused at once, so that
//! a scheduler can leave a task that is refused and come back to it.

use vstd::prelude::*;
use crate::error::ReceiveError;

verus! {

/// What a task intends to do with a value it depends on.
#[derive(Debug, PartialEq, Eq, Clone, Copy, Structural)]
pub enum Access {
    /// Takes in what an upstream task produced.
    Consume,
    /// Looks at the value, together with any number of other readers.
    Read,
    /// Changes the value, alone.
    Write,
}

impl Access {
    /// Whether the access excludes every other access to the same value.
    pub open spec fn is_exclusive(self) -> bool {
        self is Write
    }

    pub fn exclusive(self) -> (b: bool)
        ensures
            b == self.is_exclusive(),
    {
        match self {
            Access::Write => true,
            _ => false,
        }
    }

    /// The number under which the access is kept on an edge.
    pub open spec fn spec_code(self) -> u8 {
        match self {
            Access::Consume => 0,
            Access::Read => 1,
            Access::Write => 2,
        }
    }

    /// The access kept under a number; any number that stands for none reads.
    pub open spec fn spec_of_code(code: u8) -> Access {
        if code == 0 {
            Access::Consume
        } else if code == 2 {
            Access::Write
        } else {
            Access::Read
        }
    }

    pub fn code(self) -> (c: u8)
        ensures
            c == self.spec_code(),
            Self::spec_of_code(c) == self,
    {
        match self {
            Access::Consume => 0,
            Access::Read => 1,
            Access::Write => 2,
        }
    }

    pub fn of_code(code: u8) -> (a: Access)
        ensures
            a == Self::spec_of_code(code),
    {
        if code == 0 {
            Access::Consume
        } else if code == 2 {
            Access::Write
        } else {
            Access::Read
        }
    }
}

/// The grants that are out for one value.
#[derive(Debug, PartialEq, Eq, Clone, Copy, Structural)]
pub enum LockState {
    /// Nobody holds a grant.
    Free,
    /// This many readers hold one; never zero.
    Shared(usize),
    /// One writer holds the only grant.
    Exclusive,
}

impl LockState {
    /// Whether the state can come about: readers that share are at least one.
    pub open spec fn wf(self) -> bool {
        self matches LockState::Shared(n) ==> n >= 1
    }

    /// Whether a grant of this kind would be given now.
    pub open spec fn allows(self, access: Access) -> bool {
        match self {
            LockState::Free => true,
            LockState::Shared(n) => !access.is_exclusive() && n < usize::MAX,
            LockState::Exclusive => false,
        }
    }

    /// The state once a grant of this kind has been given; unchanged where it is refused.
    pub open spec fn granted(self, access: Access) -> LockState {
        if !self.allows(access) {
            self
        } else if access.is_exclusive() {
            LockState::Exclusive
        } else {
            match self {
                LockState::Shared(n) => LockState::Shared((n + 1) as usize),
                _ => LockState::Shared(1),
            }
        }
    }

    /// The state once a grant has been given back.
    pub open spec fn released(self) -> LockState {
        match self {
            LockState::Shared(n) if n > 1 => LockState::Shared((n - 1) as usize),
            _ => LockState::Free,
        }
    }

    /// Asks for a shared grant.
    pub fn try_acquire_read(&mut self) -> (r: Result<(), ReceiveError>)
        ensures
            old(self).wf() ==> final(self).wf(),
            *final(self) == old(self).granted(Access::Read),
            r is Ok <==> old(self).allows(Access::Read),
            r is Err ==> r->Err_0 == ReceiveError::WouldBlock,
    {
        match *self {
            LockState::Free => {
                *self = LockState::Shared(1);
                Ok(())
            },
            LockState::Shared(n) => {
                if n < usize::MAX {
                    *self = LockState::Shared(n + 1);
                    Ok(())
                } else {
                    Err(ReceiveError::WouldBlock)
                }
            },
            LockState::Exclusive => Err(ReceiveError::WouldBlock),
        }
    }

    /// Asks for the exclusive grant.
    pub fn try_acquire_write(&mut self) -> (r: Result<(), ReceiveError>)
        ensures
            old(self).wf() ==> final(self).wf(),
            *final(self) == old(self).granted(Access::Write),
            r is Ok <==> old(self).allows(Access::Write),
            r is Err ==> r->Err_0 == ReceiveError::WouldBlock,
    {
        match *self {
            LockState::Free => {
                *self = LockState::Exclusive;
                Ok(())
            },
            _ => Err(ReceiveError::WouldBlock),
        }
    }

    /// Asks for a grant of the given kind.
    pub fn try_acquire(&mut self, access: Access) -> (r: Result<(), ReceiveError>)
        ensures
            old(self).wf() ==> final(self).wf(),
            *final(self) == old(self).granted(access),
            r is Ok <==> old(self).allows(access),
            r is Err ==> r->Err_0 == ReceiveError::WouldBlock,
    {
        if access.exclusive() {
            self.try_acquire_write()
        } else {
            self.try_acquire_read()
        }
    }

    /// Gives one grant back. With no grant out, nothing changes.
    pub fn release(&mut self)
        ensures
            old(self).wf() ==> final(self).wf(),
            *final(self) == old(self).released(),
    {
        match *self {
            LockState::Shared(n) => {
                if n > 1 {
                    *self = LockState::Shared(n - 1);
                } else {
                    *self = LockState::Free;
                }
            },
            _ => {
                *self = LockState::Free;
            },
        }
    }
}

/// Giving back a grant that was given restores the state it was asked in.
pub proof fn lemma_release_undoes_grant(state: LockState, access: Access)
    requires
        state.wf(),
        state.allows(access),
    ensures
        state.granted(access).released() == state,
        state.granted(access).wf(),
{
}

/// While a writer holds its grant nobody else gets one, and while a reader
/// holds one no writer does.
pub proof fn lemma_writer_excludes(state: LockState, held: Access, asked: Access)
    requires
        state.wf(),
        state.allows(held),
        held.is_exclusive() || asked.is_exclusive(),
    ensures
        !state.granted(held).allows(asked),
{
}

/// Readers do not exclude each other, as long as they can be counted.
pub proof fn lemma_readers_share(state: LockState, held: Access, asked: Access)
    requires
        state.wf(),
        state.allows(held),
        !held.is_exclusive(),
        !asked.is_exclusive(),
        state matches LockState::Shared(n) ==> n + 1 < usize::MAX,
    ensures
        state.granted(held).allows(asked),
{
}

} // verus!
