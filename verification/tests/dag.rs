//! The lock-in graph: cycle-safe edge insertion and topological ordering.

use athens::TaskId;
use athens::TaskIdDag;

fn edge(a: usize, b: usize) -> (TaskId, TaskId) {
    (TaskId(a), TaskId(b))
}

#[test]
fn try_insert_succeeds_with_no_cycle() {
    let mut d = TaskIdDag::default();
    assert!(d.try_insert(edge(1, 2)));
    assert!(d.try_insert(edge(1, 3)));
    assert!(d.try_insert(edge(2, 3)));
    assert!(d.try_insert(edge(3, 4)));
}

#[test]
fn try_insert_detects_self_edge() {
    let mut d = TaskIdDag::default();
    assert!(!d.try_insert(edge(1, 1)));
}

#[test]
fn try_insert_detects_cycle_3() {
    let mut d = TaskIdDag::default();
    assert!(d.try_insert(edge(1, 2)));
    assert!(d.try_insert(edge(2, 3)));
    assert!(!d.try_insert(edge(3, 1)));
}

#[test]
fn topological_sort_works_simple() {
    let mut d = TaskIdDag::default();
    d.try_insert(edge(1, 2));
    d.try_insert(edge(2, 3));
    d.try_insert(edge(3, 4));
    assert_eq!(
        d.topological_sort(),
        vec![TaskId(1), TaskId(2), TaskId(3), TaskId(4)]
    );
}

#[test]
fn topological_sort_works_harder() {
    let mut d = TaskIdDag::default();
    d.try_insert(edge(1, 3)); // 1 -> [3, 5]
    d.try_insert(edge(1, 5));
    d.try_insert(edge(2, 3)); // 2 -> 3 -> 4
    d.try_insert(edge(3, 4));
    d.try_insert(edge(7, 6)); // 7 -> 6
    assert_eq!(
        d.topological_sort(),
        vec![
            // No parents:
            TaskId(1),
            TaskId(2),
            TaskId(7),
            // 1 parent:
            TaskId(3),
            TaskId(5),
            TaskId(6),
            // 2 parents:
            TaskId(4)
        ]
    );
}

#[test]
fn rejected_edge_leaves_graph_unchanged() {
    let mut d = TaskIdDag::default();
    assert!(d.try_insert(edge(1, 2)));
    assert!(d.try_insert(edge(2, 3)));
    assert!(!d.try_insert(edge(3, 1)));
    // The failed lock-in must not have disturbed the earlier edges.
    assert_eq!(d.topological_sort(), vec![TaskId(1), TaskId(2), TaskId(3)]);
}
