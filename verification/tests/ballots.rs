//! Ballots, the ranked-pairs aggregator and the combined-score aggregator,
//! exercised as plain values.

use athens::combine_important_and_easy;
use athens::ranked_pairs_ordering;
use athens::AthensError;
use athens::Entry;
use athens::Model;
use athens::OrderedTasks;
use athens::TaskId;

fn ids(ns: &[usize]) -> Vec<TaskId> {
    let mut v = Vec::new();
    for n in ns {
        v.push(TaskId(*n));
    }
    v
}

fn ballot(ns: &[usize]) -> OrderedTasks {
    OrderedTasks::from_vec(ids(ns)).unwrap()
}

#[test]
fn from_vec_rejects_duplicates() {
    let r = OrderedTasks::from_vec(ids(&[0, 1, 0]));
    assert_eq!(r.unwrap_err(), AthensError::DuplicateTaskId);
    assert!(OrderedTasks::from_vec(ids(&[2, 0, 1])).is_ok());
    assert!(OrderedTasks::from_vec(Vec::new()).is_ok());
}

#[test]
fn push_front_places_new_id_first() {
    let mut b = ballot(&[1, 2]);
    b.push_front(TaskId(5));
    assert_eq!(b.iter(), ids(&[5, 1, 2]));
    assert_eq!(b.len(), 3);
    assert_eq!(b.get(0), TaskId(5));
}

#[test]
fn reorder_moves_element() {
    let mut b = ballot(&[0, 1, 2, 3]);
    b.reorder(0, 2).unwrap();
    assert_eq!(b.iter(), ids(&[1, 2, 0, 3]));
    let mut c = ballot(&[0, 1, 2, 3]);
    c.reorder(3, 1).unwrap();
    assert_eq!(c.iter(), ids(&[0, 3, 1, 2]));
}

#[test]
fn reorder_same_index_is_a_no_op() {
    let mut b = ballot(&[4, 2, 7]);
    b.reorder(1, 1).unwrap();
    assert_eq!(b.iter(), ids(&[4, 2, 7]));
}

#[test]
fn reorder_rejects_out_of_range() {
    let mut b = ballot(&[0, 1]);
    assert_eq!(b.reorder(0, 2).unwrap_err(), AthensError::IndexOutOfRange);
    assert_eq!(b.reorder(5, 0).unwrap_err(), AthensError::IndexOutOfRange);
    assert_eq!(b.iter(), ids(&[0, 1]));
}

#[test]
fn aggregating_no_ballots_yields_empty() {
    let r = ranked_pairs_ordering(&Vec::new()).unwrap();
    assert_eq!(r.iter(), Vec::new());
}

#[test]
fn aggregating_one_ballot_yields_it_unchanged() {
    let b = vec![ballot(&[2, 0, 3, 1])];
    let r = ranked_pairs_ordering(&b).unwrap();
    assert_eq!(r.iter(), ids(&[2, 0, 3, 1]));
}

#[test]
fn aggregating_one_ballot_with_one_task() {
    // A universe of a single task has no pairs to tally, yet the sole
    // identifier must still come back.
    let b = vec![ballot(&[5])];
    let r = ranked_pairs_ordering(&b).unwrap();
    assert_eq!(r.iter(), ids(&[5]));
}

#[test]
fn aggregating_many_ballots_over_one_task() {
    let b = vec![ballot(&[0]), ballot(&[0]), ballot(&[0])];
    let r = ranked_pairs_ordering(&b).unwrap();
    assert_eq!(r.iter(), ids(&[0]));
}

#[test]
fn aggregating_rejects_mismatched_universes() {
    let b = vec![ballot(&[0, 1]), ballot(&[0, 2])];
    assert_eq!(
        ranked_pairs_ordering(&b).unwrap_err(),
        AthensError::UniverseMismatch
    );
    let c = vec![ballot(&[0, 1]), ballot(&[0])];
    assert_eq!(
        ranked_pairs_ordering(&c).unwrap_err(),
        AthensError::UniverseMismatch
    );
}

#[test]
fn aggregating_majority_preference_wins() {
    // Two voters prefer 1 over 0, one prefers 0 over 1.
    let b = vec![ballot(&[1, 0]), ballot(&[1, 0]), ballot(&[0, 1])];
    let r = ranked_pairs_ordering(&b).unwrap();
    assert_eq!(r.iter(), ids(&[1, 0]));
}

#[test]
fn combine_identical_orderings_returns_them() {
    let imp = ballot(&[3, 0, 2, 1]);
    let eas = ballot(&[3, 0, 2, 1]);
    let r = combine_important_and_easy(&imp, &eas).unwrap();
    assert_eq!(r.iter(), ids(&[3, 0, 2, 1]));
}

#[test]
fn combine_sums_ranks() {
    // Summed ranks: 0 -> 0 + 1 = 1, 1 -> 1 + 2 = 3, 2 -> 2 + 0 = 2.
    let imp = ballot(&[0, 1, 2]);
    let eas = ballot(&[2, 0, 1]);
    let r = combine_important_and_easy(&imp, &eas).unwrap();
    assert_eq!(r.iter(), ids(&[0, 2, 1]));
}

#[test]
fn combine_breaks_ties_by_importance() {
    // Both tasks sum to 1; the importance rank puts 0 first.
    let imp = ballot(&[0, 1]);
    let eas = ballot(&[1, 0]);
    let r = combine_important_and_easy(&imp, &eas).unwrap();
    assert_eq!(r.iter(), ids(&[0, 1]));
}

#[test]
fn combine_rejects_mismatched_universes() {
    let imp = ballot(&[0, 1]);
    let eas = ballot(&[0, 2]);
    assert_eq!(
        combine_important_and_easy(&imp, &eas).unwrap_err(),
        AthensError::UniverseMismatch
    );
    let shorter = ballot(&[0]);
    assert_eq!(
        combine_important_and_easy(&imp, &shorter).unwrap_err(),
        AthensError::UniverseMismatch
    );
}

#[test]
fn model_add_entry_goes_first() {
    let mut m = Model::default();
    m.add_entry();
    m.add_entry();
    let by_importance: Vec<Entry> = m.iter_importance();
    assert_eq!(by_importance.len(), 2);
    assert_eq!(by_importance[0].id, 1);
    assert_eq!(by_importance[0].order, 0);
    assert_eq!(by_importance[1].id, 0);
    let by_easiness: Vec<Entry> = m.iter_easiness();
    assert_eq!(by_easiness[0].id, 1);
    assert_eq!(by_easiness[1].id, 0);
}

#[test]
fn model_set_text_and_move() {
    let mut m = Model::default();
    m.add_entry();
    m.add_entry();
    m.add_entry();
    // Orderings are now [2, 1, 0] for both criteria.
    m.set_text(2, "newest".to_string());
    m.move_importance(0, 2);
    let by_importance = m.iter_importance();
    assert_eq!(by_importance[0].id, 1);
    assert_eq!(by_importance[1].id, 0);
    assert_eq!(by_importance[2].id, 2);
    assert_eq!(by_importance[2].text, "newest");
    // Easiness is untouched.
    let by_easiness = m.iter_easiness();
    assert_eq!(by_easiness[0].id, 2);
    assert_eq!(by_easiness[0].text, "newest");
}

#[test]
fn model_combined_order_sums_ranks() {
    let mut m = Model::default();
    m.add_entry();
    m.add_entry();
    m.add_entry();
    // Both orderings start as [2, 1, 0]; move entry 0 to the front of
    // easiness: easiness becomes [0, 2, 1].
    m.move_easiness(2, 0);
    // Summed ranks: 2 -> 0 + 1 = 1, 1 -> 1 + 2 = 3, 0 -> 2 + 0 = 2.
    let combined = m.iter_important_and_easy();
    assert_eq!(combined.len(), 3);
    assert_eq!(combined[0].id, 2);
    assert_eq!(combined[1].id, 0);
    assert_eq!(combined[2].id, 1);
    assert_eq!(combined[0].order, 0);
    assert_eq!(combined[1].order, 1);
    assert_eq!(combined[2].order, 2);
}

#[test]
fn model_move_same_index_is_unchecked_no_op() {
    let mut m = Model::default();
    m.add_entry();
    m.add_entry();
    // Equal indices move nothing, even out of range.
    m.move_importance(9, 9);
    m.move_easiness(0, 0);
    let by_importance = m.iter_importance();
    assert_eq!(by_importance[0].id, 1);
    assert_eq!(by_importance[1].id, 0);
    let by_easiness = m.iter_easiness();
    assert_eq!(by_easiness[0].id, 1);
    assert_eq!(by_easiness[1].id, 0);
}

#[test]
fn ballots_report_no_duplicates() {
    let b = ballot(&[0, 1, 2]);
    assert!(b.no_duplicate_ids());
    assert_eq!(b.duplicate().iter(), b.iter());
}
