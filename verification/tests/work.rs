use rust_sem::rect::add;
use rust_sem::work::{run_joined, spawn, Handle, WorkFailure};

#[test]
fn join_yields_what_the_unit_produced() {
    let handle = spawn(|| add(2, 3));
    assert_eq!(handle.join(), Ok(5));
}

#[test]
fn join_yields_a_moved_value() {
    let v = vec![1, 2, 3];
    let handle = spawn(move || {
        let mut w = v;
        w.push(4);
        w
    });
    assert_eq!(handle.join(), Ok(vec![1, 2, 3, 4]));
}

#[test]
fn join_of_a_unit_without_a_value() {
    let handle = spawn(|| ());
    assert_eq!(handle.join(), Ok(()));
}

#[test]
fn join_propagates_a_failure() {
    let handle: Handle<i32> = Handle::from_outcome(None);
    assert_eq!(handle.join(), Err(WorkFailure));
}

#[test]
fn join_of_a_unit_that_ended_elsewhere() {
    let handle = Handle::from_outcome(Some(String::from("done")));
    assert_eq!(handle.join(), Ok(String::from("done")));
}

#[test]
fn a_joined_run_yields_what_the_unit_produced() {
    assert_eq!(run_joined(|| add(2, 3)), Ok(5));
    assert_eq!(run_joined(|| String::from("hi")), Ok(String::from("hi")));
}
