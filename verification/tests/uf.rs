use philis::lvs::{LvsError, NetId, UnionResult};
use philis::uf::ConnectivityTracker;

#[test]
fn new_tracker_has_n_singleton_components() {
    let tracker = ConnectivityTracker::new(5);
    assert_eq!(tracker.component_count(), 5);
}

#[test]
fn union_merges_components_and_decreases_count() {
    let mut tracker = ConnectivityTracker::new(3);
    assert_eq!(tracker.union(0, 1), UnionResult::Merged);
    assert_eq!(tracker.component_count(), 2);
    assert!(tracker.same_component(0, 1));
    assert!(!tracker.same_component(0, 2));
}

#[test]
fn union_of_already_same_component_is_noop() {
    let mut tracker = ConnectivityTracker::new(2);
    tracker.union(0, 1);
    assert_eq!(tracker.union(0, 1), UnionResult::AlreadySame);
    assert_eq!(tracker.component_count(), 1);
}

#[test]
fn transitive_union_puts_all_elements_in_same_component() {
    let mut tracker = ConnectivityTracker::new(4);
    tracker.union(0, 1);
    tracker.union(1, 2);
    tracker.union(2, 3);

    assert!(tracker.same_component(0, 3));
    assert_eq!(tracker.component_members(0).len(), 4);
    assert_eq!(tracker.component_count(), 1);
}

#[test]
fn union_with_compatible_labels_merges() {
    let mut tracker = ConnectivityTracker::new(2);
    tracker.label(0, NetId(1));
    assert_eq!(tracker.union(0, 1), UnionResult::Merged);
    assert_eq!(tracker.component_net(1), Some(NetId(1)));
}

#[test]
fn union_with_conflicting_labels_reports_short() {
    let mut tracker = ConnectivityTracker::new(2);
    tracker.label(0, NetId(1));
    tracker.label(1, NetId(2));

    match tracker.union(0, 1) {
        UnionResult::Short { net_a, net_b } => {
            assert_eq!(net_a, NetId(1));
            assert_eq!(net_b, NetId(2));
        }
        other => panic!("expected Short, got {other:?}"),
    }
}

#[test]
fn relabeling_with_same_net_is_allowed() {
    let mut tracker = ConnectivityTracker::new(1);
    tracker.label(0, NetId(1));
    tracker.label(0, NetId(1));
    assert_eq!(tracker.component_net(0), Some(NetId(1)));
}

#[test]
fn elements_with_net_finds_all_labeled_elements() {
    let mut tracker = ConnectivityTracker::new(3);
    tracker.label(0, NetId(1));
    tracker.label(2, NetId(1));
    tracker.label(1, NetId(2));

    let mut elems = tracker.elements_with_net(NetId(1));
    elems.sort_unstable();
    assert_eq!(elems, vec![0, 2]);
}

#[test]
fn invariant_check_detects_open() {
    let mut tracker = ConnectivityTracker::new(2);
    tracker.label(0, NetId(1));
    tracker.label(1, NetId(1));
    // Not unioned: an "open" since both are labeled NetId(1) but live in
    // different components.

    let errors = tracker.invariant_check();
    assert_eq!(errors.len(), 1);
    match &errors[0] {
        LvsError::Open(open) => {
            assert_eq!(open.net, NetId(1));
            assert_eq!(open.components.len(), 2);
        }
        other => panic!("expected Open, got {other:?}"),
    }
}

#[test]
fn invariant_check_detects_short() {
    let mut tracker = ConnectivityTracker::new(2);
    tracker.label(0, NetId(1));
    tracker.label(1, NetId(2));
    tracker.union(0, 1);

    let errors = tracker.invariant_check();
    assert_eq!(errors.len(), 1);
    match &errors[0] {
        LvsError::Short(short) => {
            assert_eq!(short.nets, vec![NetId(1), NetId(2)]);
        }
        other => panic!("expected Short, got {other:?}"),
    }
}

#[test]
fn invariant_check_is_empty_for_consistent_labeling() {
    let mut tracker = ConnectivityTracker::new(4);
    tracker.label(0, NetId(1));
    tracker.label(1, NetId(1));
    tracker.label(2, NetId(2));
    tracker.label(3, NetId(2));
    tracker.union(0, 1);
    tracker.union(2, 3);

    assert!(tracker.invariant_check().is_empty());
}

#[test]
fn component_members_are_sorted_and_complete() {
    let mut tracker = ConnectivityTracker::new(5);
    tracker.union(4, 1);
    tracker.union(1, 3);
    assert_eq!(tracker.component_members(3), vec![1, 3, 4]);
    assert_eq!(tracker.component_members(0), vec![0]);
    assert_eq!(tracker.component_count(), 3);
}

#[test]
fn component_net_takes_lowest_labeled_member() {
    let mut tracker = ConnectivityTracker::new(3);
    tracker.label(2, NetId(7));
    tracker.label(1, NetId(9));
    tracker.union(2, 1);
    // Element 1 is the lowest-numbered labeled member of the component.
    assert_eq!(tracker.component_net(2), Some(NetId(9)));
    assert_eq!(tracker.component_net(0), None);
    assert_eq!(tracker.find(1), tracker.find(2));
}

#[test]
fn invariant_check_reports_opens_before_shorts() {
    let mut tracker = ConnectivityTracker::new(4);
    tracker.label(0, NetId(1));
    tracker.label(1, NetId(2));
    tracker.label(2, NetId(3));
    tracker.label(3, NetId(3));
    tracker.union(0, 1);
    let errors = tracker.invariant_check();
    assert_eq!(errors.len(), 2);
    assert!(matches!(&errors[0], LvsError::Open(o) if o.net == NetId(3)));
    assert!(matches!(&errors[1], LvsError::Short(s) if s.nets == vec![NetId(1), NetId(2)]));
}


#[test]
fn union_by_rank_picks_the_higher_rank_root_and_x_on_ties() {
    let mut t = ConnectivityTracker::new(5);
    t.union(1, 0);
    assert_eq!(t.find(0), 1);
    t.union(2, 3);
    assert_eq!(t.find(3), 2);
    // Equal ranks: the root of the first argument's component wins.
    t.union(0, 3);
    assert_eq!(t.find(2), 1);
    // Lower rank joins higher rank, whichever comes first.
    t.union(4, 2);
    assert_eq!(t.find(4), 1);
}
