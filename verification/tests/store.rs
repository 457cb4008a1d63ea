//! The store and its lock-guarded wrapper, driven through the
//! `AthensSpace` interface.

use athens::AthensError;
use athens::AthensSpace;
use athens::OrderedTasks;
use athens::ParallelSimpleAthensSpace;
use athens::TaskId;
use athens::UserId;

fn simple_athens_space(space: &ParallelSimpleAthensSpace) {
    let t0 = space.create_task().id;
    let t1 = space.create_task().id;
    let t2 = space.create_task().id;
    let t3 = space.create_task().id;
    let u0 = space.create_user().id;
    let u1 = space.create_user().id;
    let u2 = space.create_user().id;
    let u3 = space.create_user().id;
    let u4 = space.create_user().id;
    let _ = space.set_user_importance(u0, OrderedTasks::from_vec(vec![t0, t1, t3, t2]).unwrap());
    let _ = space.set_user_importance(u1, OrderedTasks::from_vec(vec![t1, t3, t2, t0]).unwrap());
    let _ = space.set_user_importance(u2, OrderedTasks::from_vec(vec![t0, t1, t3, t2]).unwrap());
    let _ = space.set_user_importance(u3, OrderedTasks::from_vec(vec![t0, t3, t2, t1]).unwrap());
    let _ = space.set_user_importance(u4, OrderedTasks::from_vec(vec![t0, t2, t3, t1]).unwrap());
    // Win margin (row - column)
    //
    //      t1  t2  t3
    // t0    3   3   3
    // t1        1   1
    // t2           -3
    //
    // t0 > all
    // t3 > t2
    // t1 > t3
    // t1 > t2
    assert_eq!(space.important_tasks().iter(), vec![t0, t1, t3, t2]);
}

#[test]
fn test_parallel_simple_athens_space() {
    let s = ParallelSimpleAthensSpace::new();
    simple_athens_space(&s);
}

// Test list importance with no users and no tasks
#[test]
fn test_empty_simple_athens_space() {
    let s = ParallelSimpleAthensSpace::new();
    assert_eq!(s.important_tasks().iter(), vec![]);
}

#[test]
fn test_simple_athens_space_no_users() {
    let s = ParallelSimpleAthensSpace::new();
    let t0 = s.create_task().id;
    assert_eq!(s.important_tasks().iter(), vec![t0]);
}

#[test]
fn create_task_prepends_to_existing_ballots() {
    let s = ParallelSimpleAthensSpace::new();
    let t0 = s.create_task().id;
    let u0 = s.create_user().id;
    let u1 = s.create_user().id;
    // A new user's initial ballots equal the current task-creation order.
    assert_eq!(s.user_importance(u1).unwrap().iter(), vec![t0]);
    assert_eq!(s.user_easiness(u1).unwrap().iter(), vec![t0]);
    // A new task lands at the front of both ballots of every existing user.
    let t1 = s.create_task().id;
    assert_eq!(s.user_importance(u0).unwrap().iter(), vec![t1, t0]);
    assert_eq!(s.user_easiness(u0).unwrap().iter(), vec![t1, t0]);
    assert_eq!(s.user_importance(u1).unwrap().iter(), vec![t1, t0]);
    assert_eq!(s.user_easiness(u1).unwrap().iter(), vec![t1, t0]);
}

#[test]
fn single_task_stays_visible_in_every_aggregate() {
    let s = ParallelSimpleAthensSpace::new();
    let t0 = s.create_task().id;
    let u = s.create_user().id;
    // A pool of one task has no pairwise contests, but every aggregate
    // view must still show the task.
    assert_eq!(s.important_tasks().iter(), vec![t0]);
    assert_eq!(s.easy_tasks().iter(), vec![t0]);
    assert_eq!(s.important_and_easy_tasks().iter(), vec![t0]);
    assert_eq!(s.user_important_and_easy(u).unwrap().iter(), vec![t0]);
}

#[test]
fn create_task_twice_yields_distinct_ids() {
    let s = ParallelSimpleAthensSpace::new();
    let t0 = s.create_task();
    let t1 = s.create_task();
    assert_ne!(t0.id, t1.id);
    assert_eq!(s.get_task(t0.id).unwrap().id, t0.id);
    assert_eq!(s.get_task(t1.id).unwrap().id, t1.id);
    assert_eq!(s.tasks(), vec![t0.id, t1.id]);
}

#[test]
fn get_and_set_task_text() {
    let s = ParallelSimpleAthensSpace::new();
    let mut t = s.create_task();
    assert_eq!(t.text, "");
    t.text = "water the plants".to_string();
    let updated = s.set_task(t.clone()).unwrap();
    assert_eq!(updated.text, "water the plants");
    assert_eq!(s.get_task(t.id).unwrap().text, "water the plants");
    assert!(s.get_task(TaskId(7)).is_none());
    assert!(s.set_task(athens::Task { id: TaskId(7), text: String::new() }).is_none());
}

#[test]
fn get_and_set_user_alias() {
    let s = ParallelSimpleAthensSpace::new();
    let mut u = s.create_user();
    assert_eq!(u.alias, "");
    assert_eq!(u.weight, 1);
    u.alias = "ada".to_string();
    let updated = s.set_user(u.clone()).unwrap();
    assert_eq!(updated.alias, "ada");
    assert_eq!(s.get_user(u.id).unwrap().alias, "ada");
    assert!(s.get_user(UserId(3)).is_none());
    assert_eq!(s.users(), vec![u.id]);
}

#[test]
fn swap_user_importance_reorders_ballot() {
    let s = ParallelSimpleAthensSpace::new();
    let t0 = s.create_task().id;
    let t1 = s.create_task().id;
    let t2 = s.create_task().id;
    let u = s.create_user().id;
    // The initial ballot is creation order.
    assert_eq!(s.user_importance(u).unwrap().iter(), vec![t0, t1, t2]);
    let moved = s.swap_user_importance(u, 0, 2).unwrap();
    assert_eq!(moved.iter(), vec![t1, t2, t0]);
    // Reordering with both indices equal is a no-op.
    let same = s.swap_user_importance(u, 1, 1).unwrap();
    assert_eq!(same.iter(), vec![t1, t2, t0]);
}

#[test]
fn swap_user_importance_rejects_bad_input() {
    let s = ParallelSimpleAthensSpace::new();
    let _ = s.create_task();
    let u = s.create_user().id;
    assert_eq!(
        s.swap_user_importance(UserId(9), 0, 0).unwrap_err(),
        AthensError::UserNotFound
    );
    assert_eq!(
        s.swap_user_importance(u, 0, 5).unwrap_err(),
        AthensError::IndexOutOfRange
    );
    assert_eq!(
        s.swap_user_easiness(u, 3, 0).unwrap_err(),
        AthensError::IndexOutOfRange
    );
}

#[test]
fn set_user_importance_rejects_wrong_universe() {
    let s = ParallelSimpleAthensSpace::new();
    let t0 = s.create_task().id;
    let _t1 = s.create_task().id;
    let u = s.create_user().id;
    // Too few identifiers for the current task pool.
    let short = OrderedTasks::from_vec(vec![t0]).unwrap();
    assert_eq!(
        s.set_user_importance(u, short).unwrap_err(),
        AthensError::UniverseMismatch
    );
    // An identifier outside the pool.
    let foreign = OrderedTasks::from_vec(vec![t0, TaskId(9)]).unwrap();
    assert_eq!(
        s.set_user_easiness(u, foreign).unwrap_err(),
        AthensError::UniverseMismatch
    );
    let missing = OrderedTasks::from_vec(vec![t0]).unwrap();
    assert_eq!(
        s.set_user_importance(UserId(4), missing).unwrap_err(),
        AthensError::UserNotFound
    );
}

#[test]
fn important_and_easy_tasks_agreeing_ballots() {
    let s = ParallelSimpleAthensSpace::new();
    let t0 = s.create_task().id;
    let t1 = s.create_task().id;
    let t2 = s.create_task().id;
    let u = s.create_user().id;
    let order = vec![t2, t0, t1];
    let _ = s.set_user_importance(u, OrderedTasks::from_vec(order.clone()).unwrap());
    let _ = s.set_user_easiness(u, OrderedTasks::from_vec(order.clone()).unwrap());
    // With a single voter both consensus orders equal that ballot, and two
    // identical orderings combine to themselves.
    assert_eq!(s.important_tasks().iter(), order);
    assert_eq!(s.easy_tasks().iter(), order);
    assert_eq!(s.important_and_easy_tasks().iter(), order);
}

#[test]
fn user_important_and_easy_combines_ballots() {
    let s = ParallelSimpleAthensSpace::new();
    let t0 = s.create_task().id;
    let t1 = s.create_task().id;
    let t2 = s.create_task().id;
    let u = s.create_user().id;
    let _ = s.set_user_importance(u, OrderedTasks::from_vec(vec![t0, t1, t2]).unwrap());
    let _ = s.set_user_easiness(u, OrderedTasks::from_vec(vec![t2, t0, t1]).unwrap());
    // Summed ranks: t0 = 0 + 1 = 1, t1 = 1 + 2 = 3, t2 = 2 + 0 = 2.
    assert_eq!(s.user_important_and_easy(u).unwrap().iter(), vec![t0, t2, t1]);
    assert!(s.user_important_and_easy(UserId(5)).is_none());
}

#[test]
fn snapshot_and_replace_round_trip() {
    let s = ParallelSimpleAthensSpace::new();
    let t0 = s.create_task().id;
    let _u = s.create_user().id;
    let copy = s.snapshot();
    let other = ParallelSimpleAthensSpace::new();
    other.replace(copy);
    assert_eq!(other.tasks(), vec![t0]);
    assert_eq!(other.users().len(), 1);
    assert_eq!(other.user_importance(UserId(0)).unwrap().iter(), vec![t0]);
}
