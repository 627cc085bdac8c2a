use styx::{Access, LockState, ReceiveError};

#[test]
fn readers_share_and_a_writer_waits() {
    let mut state = LockState::Free;
    assert_eq!(state.try_acquire_read(), Ok(()));
    assert_eq!(state, LockState::Shared(1));
    assert_eq!(state.try_acquire_read(), Ok(()));
    assert_eq!(state, LockState::Shared(2));
    assert_eq!(state.try_acquire_write(), Err(ReceiveError::WouldBlock));
    assert_eq!(state, LockState::Shared(2));
    state.release();
    assert_eq!(state, LockState::Shared(1));
    state.release();
    assert_eq!(state, LockState::Free);
}

#[test]
fn a_writer_excludes_everybody() {
    let mut state = LockState::Free;
    assert_eq!(state.try_acquire_write(), Ok(()));
    assert_eq!(state, LockState::Exclusive);
    assert_eq!(state.try_acquire_read(), Err(ReceiveError::WouldBlock));
    assert_eq!(state.try_acquire_write(), Err(ReceiveError::WouldBlock));
    assert_eq!(state.try_acquire(Access::Consume), Err(ReceiveError::WouldBlock));
    assert_eq!(state, LockState::Exclusive);
    state.release();
    assert_eq!(state, LockState::Free);
    state.release();
    assert_eq!(state, LockState::Free);
}

#[test]
fn readers_are_counted_to_the_last() {
    let mut state = LockState::Shared(usize::MAX - 1);
    assert_eq!(state.try_acquire(Access::Read), Ok(()));
    assert_eq!(state, LockState::Shared(usize::MAX));
    assert_eq!(state.try_acquire(Access::Read), Err(ReceiveError::WouldBlock));
    assert_eq!(state, LockState::Shared(usize::MAX));
}

#[test]
fn access_kinds_keep_their_codes() {
    for access in [Access::Consume, Access::Read, Access::Write] {
        assert_eq!(Access::of_code(access.code()), access);
    }
    assert_eq!(Access::Consume.code(), 0);
    assert_eq!(Access::Read.code(), 1);
    assert_eq!(Access::Write.code(), 2);
    assert_eq!(Access::of_code(200), Access::Read);
    assert!(Access::Write.exclusive());
    assert!(!Access::Read.exclusive());
    assert!(!Access::Consume.exclusive());
}
