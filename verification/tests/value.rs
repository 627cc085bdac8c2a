use styx::{Erasable, ErasedValue, ExecutionError, Guard, ReceiveError, RwGuards, TypeTag};

#[test]
fn a_stored_value_reads_back_as_its_own_type_only() {
    let slot = ErasedValue::store(5i32);
    assert_eq!(slot.type_tag(), TypeTag::I32);
    assert_eq!(slot.read_as::<i32>(), Ok(&5));
    assert_eq!(slot.read_as::<i64>(), Err(ExecutionError::TypeMismatch));
    assert_eq!(slot.read_as::<String>(), Err(ExecutionError::TypeMismatch));
    assert_eq!(slot.read_as::<()>(), Err(ExecutionError::TypeMismatch));
}

#[test]
fn a_write_is_seen_by_the_next_read() {
    let mut slot = ErasedValue::store(String::from("a"));
    slot.write_as::<String>().unwrap().push('b');
    assert_eq!(slot.read_as::<String>().unwrap(), "ab");
    assert_eq!(slot.write_as::<i32>().err(), Some(ExecutionError::TypeMismatch));
    assert_eq!(slot.read_as::<String>().unwrap(), "ab");
    *slot.write_as::<String>().unwrap() = String::from("c");
    assert_eq!(slot.read_as::<String>().unwrap(), "c");
}

#[test]
fn every_type_has_its_own_tag() {
    assert_eq!(<() as Erasable>::type_tag(), TypeTag::Unit);
    assert_eq!(<bool as Erasable>::type_tag(), TypeTag::Bool);
    assert_eq!(<char as Erasable>::type_tag(), TypeTag::Char);
    assert_eq!(<u64 as Erasable>::type_tag(), TypeTag::U64);
    assert_eq!(<usize as Erasable>::type_tag(), TypeTag::Usize);
    assert_eq!(ErasedValue::store('c').read_as::<char>(), Ok(&'c'));
    assert_eq!(ErasedValue::store(7u64).read_as::<u64>(), Ok(&7));
    assert_eq!(ErasedValue::store(7usize).read_as::<usize>(), Ok(&7));
    assert_eq!(ErasedValue::store(7usize).read_as::<u64>(), Err(ExecutionError::TypeMismatch));
    assert_eq!(<i32 as Erasable>::type_tag(), TypeTag::I32);
    assert_eq!(<i64 as Erasable>::type_tag(), TypeTag::I64);
    assert_eq!(<String as Erasable>::type_tag(), TypeTag::Text);
    assert_eq!(<Vec<i32> as Erasable>::type_tag(), TypeTag::List);
    assert_eq!(ErasedValue::store(()).type_tag(), TypeTag::Unit);
    assert_eq!(ErasedValue::store(true).type_tag(), TypeTag::Bool);
    assert_eq!(ErasedValue::store(1i64).type_tag(), TypeTag::I64);
    assert_eq!(ErasedValue::store(String::new()).type_tag(), TypeTag::Text);
    assert_eq!(ErasedValue::store(vec![1]).type_tag(), TypeTag::List);
}

#[test]
fn a_failed_access_becomes_an_execution_error() {
    assert_eq!(ExecutionError::from_receive(ReceiveError::Closed), ExecutionError::TypeMismatch);
    assert_eq!(
        ExecutionError::from_receive(ReceiveError::Empty),
        ExecutionError::MissingDependencyValue
    );
    assert_eq!(
        ExecutionError::from_receive(ReceiveError::WouldBlock),
        ExecutionError::AccessConflict
    );
}

#[test]
fn guards_are_read_by_position() {
    let shared = ErasedValue::store(1i32);
    let mut guards = RwGuards::new();
    assert_eq!(guards.len(), 0);
    assert_eq!(guards.read::<i32>(0), Err(ReceiveError::Empty));
    guards.push_front(Guard::Exclusive(ErasedValue::store(String::from("last"))));
    guards.push_front(Guard::Shared(&shared));
    assert_eq!(guards.len(), 2);
    assert_eq!(guards.read::<i32>(0), Ok(&1));
    assert_eq!(guards.read::<String>(1).unwrap(), "last");
    assert_eq!(guards.read::<String>(0), Err(ReceiveError::Closed));
    assert_eq!(guards.read::<i32>(2), Err(ReceiveError::Empty));
    let written = guards.into_written();
    assert_eq!(written.len(), 2);
    assert!(written[0].is_none());
    assert_eq!(written[1].as_ref().unwrap().read_as::<String>().unwrap(), "last");
}
