use std::sync::atomic::{AtomicUsize, Ordering};
use std::sync::Arc;

use styx::{ExecutionError, Executor, Read, Write};

#[test]
fn test_simple_store() {
    let mut graph = Executor::new();
    let buf = graph.add_resource(2);
    let _plus_five = graph
        .add_task(Write(buf), |mut buf| {
            buf.data.set(4);
            (buf, ())
        })
        .unwrap();
    graph.execute().unwrap();
    assert_eq!(*graph.get(buf).unwrap(), 4);
}

#[test]
fn test_linear_side_effects() {
    let mut graph = Executor::new();

    let initial_value = graph.add_resource(10i32);
    let plus_five = graph
        .add_task(Read(initial_value), |x| {
            let y = *x.data + 5;
            println!("{}", y);
            (x, y)
        })
        .unwrap();
    let _times_two = graph
        .add_task(plus_five, move |x| {
            let y = *x.data * 2;
            println!("{}", y);
            (x, y)
        })
        .unwrap();
    graph.execute().unwrap();
}

#[test]
fn test_simple_linear_chain() {
    let mut graph = Executor::new();

    let initial_value = graph.add_resource(10i32);
    let plus_five = graph
        .add_task(Read(initial_value), |x| {
            let y = *x.data + 5;
            (x, y)
        })
        .unwrap();
    let times_two = graph
        .add_task(plus_five, |x| {
            let y = *x.data * 2;
            (x, y)
        })
        .unwrap();
    let result = *graph.execute_target(times_two).unwrap();
    // (10 + 5) * 2 == 30
    assert_eq!(result, 30);
}

#[test]
fn constructors() {
    let mut graph = Executor::new();
    let in_data = graph.add_resource(vec![1, 2, 3]);
    let _ = graph.add_task(Write(in_data), |mut x| {
        let mut v = x.data.get().clone();
        v[0] += 1;
        x.data.set(v);
        (x, ())
    });
    graph.execute().unwrap();
    let b = graph.get(in_data).unwrap();
    let b2: &Vec<i32> = b.get();
    assert_eq!(b2, &[2, 2, 3])
}

#[test]
fn linear_chain_by_target() {
    let mut graph = Executor::new();
    let x = graph.add_resource(10i32);
    let a = graph
        .add_task(Read(x), |x| {
            let y = *x.data + 5;
            (x, y)
        })
        .unwrap();
    let b = graph
        .add_task(Read(a), |a| {
            let y = *a.data * 2;
            (a, y)
        })
        .unwrap();
    assert_eq!(*graph.execute_target(b).unwrap(), 30);
    assert_eq!(*graph.output(a).unwrap(), 15);
    assert_eq!(*graph.get(x).unwrap(), 10);
}

#[test]
fn diamond_fan_in() {
    let mut graph = Executor::new();
    let x = graph.add_resource(10i32);
    let a = graph
        .add_task(Read(x), |x| {
            let y = *x.data + 5;
            (x, y)
        })
        .unwrap();
    let b = graph
        .add_task(Read(x), |x| {
            let y = *x.data * 2;
            (x, y)
        })
        .unwrap();
    let c = graph
        .add_task((Read(a), Read(b)), |ab| {
            let s = format!("{} + {} = {}", *ab.data.0, *ab.data.1, *ab.data.0 + *ab.data.1);
            (ab, s)
        })
        .unwrap();
    assert_eq!(*graph.execute_target(c).unwrap(), "15 + 20 = 35");
}

#[test]
fn write_then_read_ordering() {
    let mut graph = Executor::new();
    let v = graph.add_resource(100i32);
    let inc = graph
        .add_task(Write(v), |mut v| {
            let n = *v.data + 10;
            v.data.set(n);
            (v, ())
        })
        .unwrap();
    let r = graph
        .add_task((Read(v), Read(inc)), |d| {
            let n = *d.data.0;
            (d, n)
        })
        .unwrap();
    assert_eq!(*graph.execute_target(r).unwrap(), 110);
    assert_eq!(*graph.get(v).unwrap(), 110);
}

#[test]
fn write_then_read_through_a_bare_handle() {
    let mut graph = Executor::new();
    let val_handle = graph.add_resource(100i32);
    let increment_stage = graph
        .add_task(Write(val_handle), |mut x| {
            let n = *x.data + 10;
            x.data.set(n);
            (x, ())
        })
        .unwrap();
    let _read_after_write = graph
        .add_task((Read(val_handle), increment_stage), |data| {
            let n = *data.data.0;
            (data, n)
        })
        .unwrap();
    graph.execute().unwrap();
    assert_eq!(*graph.get(val_handle).unwrap(), 110);
}

#[test]
fn no_input_task() {
    let mut graph = Executor::new();
    let generate_forty_two = graph.add_task((), |none| (none, 42i32)).unwrap();
    assert_eq!(*graph.execute_target(generate_forty_two).unwrap(), 42);
    graph.execute().unwrap();
    assert_eq!(*graph.output(generate_forty_two).unwrap(), 42);
}

#[test]
fn cycle_is_refused_before_any_task_runs() {
    let calls = Arc::new(AtomicUsize::new(0));
    let mut graph = Executor::new();
    let seen = calls.clone();
    let p = graph
        .add_task((), move |none| {
            seen.fetch_add(1, Ordering::SeqCst);
            (none, 1i32)
        })
        .unwrap();
    let seen = calls.clone();
    let q = graph
        .add_task(p, move |p| {
            seen.fetch_add(1, Ordering::SeqCst);
            let y = *p.data + 1;
            (p, y)
        })
        .unwrap();
    graph.add_dependency(p, q).unwrap();
    assert_eq!(graph.execute(), Err(ExecutionError::CyclicGraph));
    assert_eq!(graph.execute_target(q).err(), Some(ExecutionError::CyclicGraph));
    assert_eq!(calls.load(Ordering::SeqCst), 0);
    assert!(graph.output(p).is_none());
    assert!(graph.output(q).is_none());
}

#[test]
fn self_dependency_is_a_cycle() {
    let mut graph = Executor::new();
    let p = graph.add_task((), |none| (none, 1i32)).unwrap();
    graph.add_dependency(p, p).unwrap();
    assert_eq!(graph.execute(), Err(ExecutionError::CyclicGraph));
}

#[test]
fn handle_of_another_type_never_opens_a_value() {
    let mut numbers = Executor::new();
    let number = numbers.add_resource(7i32);
    let mut texts = Executor::new();
    let text = texts.add_resource(String::from("seven"));

    assert_eq!(texts.read(number).err(), Some(ExecutionError::TypeMismatch));
    assert!(texts.get(number).is_none());
    assert!(texts.get_mut(number).is_none());
    assert_eq!(numbers.read(text).err(), Some(ExecutionError::TypeMismatch));
    assert!(numbers.get(text).is_none());
    assert!(numbers.get_mut(text).is_none());

    assert_eq!(*numbers.get(number).unwrap(), 7);
    assert_eq!(*texts.get(text).unwrap(), "seven");
    assert_eq!(*texts.read(text).unwrap(), "seven");
}

#[test]
fn handle_of_another_graph_names_nothing() {
    let mut large = Executor::new();
    let _first = large.add_resource(1i32);
    let second = large.add_resource(2i32);
    let task = large.add_task((), |none| (none, 3i32)).unwrap();
    let mut small = Executor::new();
    let _only = small.add_resource(1i32);

    assert_eq!(small.read(second).err(), Some(ExecutionError::MissingDependencyValue));
    assert!(small.get(second).is_none());
    assert!(small.output(task).is_none());
    assert_eq!(small.execute_target(task).err(), Some(ExecutionError::MissingDependencyValue));
    // a resource is no task, and a task no resource
    let resource_as_task = small.add_task((), |none| (none, 3i32)).unwrap();
    assert!(large.output(resource_as_task).is_none());
}

#[test]
fn readers_of_an_unmodified_resource_see_the_same_value() {
    let mut graph = Executor::new();
    let x = graph.add_resource(7i32);
    let a = graph
        .add_task(Read(x), |x| {
            let y = *x.data;
            (x, y)
        })
        .unwrap();
    let b = graph
        .add_task(Read(x), |x| {
            let y = *x.data;
            (x, y)
        })
        .unwrap();
    let both = graph
        .add_task((Read(x), Read(x)), |d| {
            let y = *d.data.0 == *d.data.1;
            (d, y)
        })
        .unwrap();
    graph.execute().unwrap();
    assert_eq!(*graph.output(a).unwrap(), 7);
    assert_eq!(*graph.output(b).unwrap(), 7);
    assert!(*graph.output(both).unwrap());
    assert_eq!(*graph.get(x).unwrap(), 7);
}

#[test]
fn arguments_arrive_in_the_order_they_were_named() {
    let mut graph = Executor::new();
    let a = graph.add_resource(10i32);
    let b = graph.add_resource(3i32);
    let c = graph.add_resource(String::from("x"));
    let minus = graph
        .add_task((Read(a), Read(b)), |d| {
            let y = *d.data.0 - *d.data.1;
            (d, y)
        })
        .unwrap();
    let mixed = graph
        .add_task(((Read(c), Read(b)), Read(a)), |d| {
            let s = format!("{}{}{}", *d.data.0 .0, *d.data.0 .1, *d.data.1);
            (d, s)
        })
        .unwrap();
    graph.execute().unwrap();
    assert_eq!(*graph.output(minus).unwrap(), 7);
    assert_eq!(*graph.output(mixed).unwrap(), "x310");
    assert_eq!(graph.len(), 5);
    assert_eq!(graph.edge_count(), 5);
}

#[test]
fn conflicting_arguments_are_refused_when_the_task_is_added() {
    let mut graph = Executor::new();
    let x = graph.add_resource(1i32);
    let y = graph.add_resource(2i32);
    let refused = graph.add_task((Write(x), Read(x)), |d| (d, ()));
    assert_eq!(refused.err(), Some(ExecutionError::AccessConflict));
    let refused = graph.add_task((Read(x), Write(x)), |d| (d, ()));
    assert_eq!(refused.err(), Some(ExecutionError::AccessConflict));
    let refused = graph.add_task((Write(x), Write(x)), |d| (d, ()));
    assert_eq!(refused.err(), Some(ExecutionError::AccessConflict));
    assert_eq!(graph.len(), 2);
    assert_eq!(graph.edge_count(), 0);
    // readers share, and two writers of two resources do not meet
    assert!(graph.add_task((Read(x), Read(x)), |d| (d, ())).is_ok());
    assert!(graph.add_task((Write(x), Write(y)), |d| (d, ())).is_ok());
    assert_eq!(graph.len(), 4);
    assert_eq!(graph.edge_count(), 4);
    graph.execute().unwrap();
}

#[test]
fn two_writers_in_one_task_both_write_back() {
    let mut graph = Executor::new();
    let x = graph.add_resource(1i32);
    let y = graph.add_resource(String::from("a"));
    let _swap = graph
        .add_task((Write(x), Write(y)), |mut d| {
            let n = *d.data.0 + 1;
            let s = format!("{}{}", *d.data.1, n);
            d.data.0.set(n);
            d.data.1.set(s);
            (d, ())
        })
        .unwrap();
    graph.execute().unwrap();
    assert_eq!(*graph.get(x).unwrap(), 2);
    assert_eq!(*graph.get(y).unwrap(), "a2");
}

#[test]
fn arguments_of_another_graph_are_refused_when_the_task_is_added() {
    let mut large = Executor::new();
    let _first = large.add_resource(1i32);
    let second = large.add_resource(2i32);
    let mut small = Executor::new();
    let _only = small.add_resource(1i32);
    let refused = small.add_task(Read(second), |d| (d, ()));
    assert_eq!(refused.err(), Some(ExecutionError::MissingDependencyValue));
    assert_eq!(small.len(), 1);
    assert_eq!(small.edge_count(), 0);
}

#[test]
fn argument_of_another_type_is_refused_when_the_task_is_added() {
    let mut numbers = Executor::new();
    let number = numbers.add_resource(7i32);
    let made_number = numbers.add_task((), |none| (none, 1i32)).unwrap();
    let mut texts = Executor::new();
    let text = texts.add_resource(String::from("seven"));
    let made_text = texts.add_task((), |none| (none, String::from("one"))).unwrap();

    let refused = texts.add_task(Read(number), |d| {
        let y = *d.data;
        (d, y)
    });
    assert_eq!(refused.err(), Some(ExecutionError::TypeMismatch));
    let refused = texts.add_task(Write(number), |d| (d, ()));
    assert_eq!(refused.err(), Some(ExecutionError::TypeMismatch));
    let refused = texts.add_task(made_number, |d| (d, ()));
    assert_eq!(refused.err(), Some(ExecutionError::TypeMismatch));
    let refused = texts.add_task((Read(text), Read(made_number)), |d| (d, ()));
    assert_eq!(refused.err(), Some(ExecutionError::TypeMismatch));
    let refused = numbers.add_task((Read(made_text), Read(number)), |d| (d, ()));
    assert_eq!(refused.err(), Some(ExecutionError::TypeMismatch));
    assert_eq!(texts.len(), 2);
    assert_eq!(texts.edge_count(), 0);
    // a handle of the right type is taken wherever it was made
    assert!(numbers.add_task((Read(number), Read(made_number)), |d| (d, ())).is_ok());
    assert!(texts.add_task((Read(text), made_text), |d| (d, ())).is_ok());
    assert_eq!(texts.execute(), Ok(()));
    assert_eq!(numbers.execute(), Ok(()));
}

#[test]
fn a_target_of_another_type_is_run_and_not_handed_out() {
    let mut numbers = Executor::new();
    let made_number = numbers.add_task((), |none| (none, 1i32)).unwrap();
    let mut texts = Executor::new();
    let made_text = texts.add_task((), |none| (none, String::from("one"))).unwrap();
    assert_eq!(texts.execute_target(made_number).err(), Some(ExecutionError::TypeMismatch));
    assert_eq!(*texts.output(made_text).unwrap(), "one");
    assert!(texts.output(made_number).is_none());
    assert_eq!(*numbers.execute_target(made_number).unwrap(), 1);
}

#[test]
fn visiting_a_task_before_its_source_finds_no_value() {
    let mut graph = Executor::new();
    let first = graph.add_task((), |none| (none, 1i32)).unwrap();
    let second = graph
        .add_task(first, |d| {
            let y = *d.data + 1;
            (d, y)
        })
        .unwrap();
    assert_eq!(graph.visit(1), Err(ExecutionError::MissingDependencyValue));
    assert_eq!(graph.execute_in(&vec![1, 0]), Err(ExecutionError::MissingDependencyValue));
    assert!(graph.output(first).is_none());
    assert_eq!(graph.execute_in(&vec![0, 1]), Ok(()));
    assert_eq!(*graph.output(second).unwrap(), 2);
}

#[test]
fn a_later_dependency_orders_the_run() {
    let mut graph = Executor::new();
    let v = graph.add_resource(1i32);
    let reader = graph
        .add_task(Read(v), |d| {
            let y = *d.data;
            (d, y)
        })
        .unwrap();
    let writer = graph
        .add_task(Write(v), |mut d| {
            d.data.set(5);
            (d, ())
        })
        .unwrap();
    graph.add_dependency(reader, writer).unwrap();
    assert_eq!(graph.edge_count(), 3);
    assert_eq!(*graph.execute_target(reader).unwrap(), 5);
}

#[test]
fn a_later_dependency_is_refused_when_it_conflicts_or_names_nothing() {
    let mut graph = Executor::new();
    let v = graph.add_resource(1i32);
    let reader = graph.add_task(Read(v), |d| (d, ())).unwrap();
    assert_eq!(graph.add_dependency(reader, Write(v)), Err(ExecutionError::AccessConflict));
    assert_eq!(graph.add_dependency(reader, Read(v)), Ok(()));

    let mut other = Executor::new();
    let _a = other.add_resource(1i32);
    let _b = other.add_resource(1i32);
    let _c = other.add_resource(1i32);
    let far = other.add_resource(1i32);
    let task_elsewhere = other.add_task((), |none| (none, ())).unwrap();
    assert_eq!(
        graph.add_dependency(reader, Read(far)),
        Err(ExecutionError::MissingDependencyValue)
    );
    assert_eq!(
        graph.add_dependency(task_elsewhere, Read(v)),
        Err(ExecutionError::MissingDependencyValue)
    );
    assert_eq!(graph.edge_count(), 2);
}

#[test]
fn values_persist_from_run_to_run() {
    let mut graph = Executor::new();
    let v = graph.add_resource(100i32);
    let _inc = graph
        .add_task(Write(v), |mut v| {
            let n = *v.data + 10;
            v.data.set(n);
            (v, ())
        })
        .unwrap();
    graph.execute().unwrap();
    graph.execute().unwrap();
    assert_eq!(*graph.get(v).unwrap(), 120);
    *graph.get_mut(v).unwrap() = 1;
    graph.execute().unwrap();
    assert_eq!(*graph.get(v).unwrap(), 11);
}

#[test]
fn a_run_up_to_a_target_leaves_later_tasks_alone() {
    let mut graph = Executor::new();
    let first = graph.add_task((), |none| (none, 1i32)).unwrap();
    let second = graph
        .add_task(first, |d| {
            let y = *d.data + 1;
            (d, y)
        })
        .unwrap();
    assert_eq!(*graph.execute_target(first).unwrap(), 1);
    assert!(graph.output(second).is_none());
    assert_eq!(*graph.execute_target(second).unwrap(), 2);
}

#[test]
fn an_empty_graph_runs() {
    let mut graph = Executor::new();
    assert_eq!(graph.len(), 0);
    assert_eq!(graph.edge_count(), 0);
    assert_eq!(graph.execute(), Ok(()));
}

#[test]
fn every_kind_of_value_can_be_held() {
    let mut graph = Executor::new();
    let unit = graph.add_resource(());
    let flag = graph.add_resource(true);
    let small = graph.add_resource(-3i32);
    let large = graph.add_resource(1i64 << 40);
    let text = graph.add_resource(String::from("t"));
    let list = graph.add_resource(vec![1, 2]);
    let letter = graph.add_resource('x');
    let count = graph.add_resource(3u64);
    let size = graph.add_resource(4usize);
    assert_eq!(*graph.get(letter).unwrap(), 'x');
    assert_eq!(*graph.get(count).unwrap(), 3);
    assert_eq!(*graph.get(size).unwrap(), 4);
    assert_eq!(*graph.get(unit).unwrap(), ());
    assert!(*graph.get(flag).unwrap());
    assert_eq!(*graph.get(small).unwrap(), -3);
    assert_eq!(*graph.get(large).unwrap(), 1i64 << 40);
    assert_eq!(*graph.get(text).unwrap(), "t");
    assert_eq!(*graph.get(list).unwrap(), vec![1, 2]);
    *graph.get_mut(flag).unwrap() = false;
    graph.get_mut(list).unwrap().push(3);
    assert!(!*graph.get(flag).unwrap());
    assert_eq!(*graph.get(list).unwrap(), vec![1, 2, 3]);
}

#[test]
fn a_node_that_is_not_there_is_missing() {
    let mut graph = Executor::new();
    let x = graph.add_resource(1i32);
    let t = graph.add_task((), |none| (none, String::from("made"))).unwrap();
    assert_eq!(graph.visit(2), Err(ExecutionError::MissingDependencyValue));
    assert_eq!(graph.execute_in(&vec![0, 7, 1]), Err(ExecutionError::MissingDependencyValue));
    assert!(graph.output(t).is_none());
    assert_eq!(graph.fetch::<i32>(2).err(), Some(ExecutionError::MissingDependencyValue));
    assert_eq!(graph.fetch::<String>(1).err(), Some(ExecutionError::MissingDependencyValue));
    assert_eq!(graph.visit(0), Ok(()));
    assert_eq!(graph.visit(1), Ok(()));
    assert_eq!(*graph.fetch::<String>(1).unwrap(), "made");
    assert_eq!(*graph.fetch::<i32>(0).unwrap(), 1);
    assert_eq!(graph.fetch::<i32>(1).err(), Some(ExecutionError::TypeMismatch));
    assert_eq!(*graph.get(x).unwrap(), 1);
}
