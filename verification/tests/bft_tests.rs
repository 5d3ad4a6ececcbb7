use railchain::bft::assigned_reqs::{AssignedRequests, Proposal};

#[test]
fn assigned_payloads_are_found_until_a_checkpoint_passes_them() {
    let mut assigned = AssignedRequests::new(2, 1);
    assert!(assigned.is_empty());
    assigned.assign(&Proposal::Single(vec![1]), 1);
    assert!(assigned.is_assigned(&[1]));
    assert!(!assigned.is_assigned(&[2]));
    assigned.assign(&Proposal::Batch(vec![vec![2], vec![3]]), 2);
    assert_eq!(assigned.len(), 3);

    // a mark of 2 with a backlog of 1 keeps sequence numbers from 2 on
    assigned.checkpoint(2);
    assert!(!assigned.is_assigned(&[1]));
    assert!(assigned.is_assigned(&[2]));
    assert!(assigned.is_assigned(&[3]));
    assert_eq!(assigned.len(), 2);

    // the window moved: sequence number 4 has a slot now
    assigned.assign(&Proposal::Single(vec![4]), 4);
    assert_eq!(assigned.len(), 3);

    // a mark far ahead forgets everything
    assigned.checkpoint(10);
    assert!(assigned.is_empty());
}

#[test]
fn a_payload_assigned_again_is_counted_once() {
    let mut assigned = AssignedRequests::new(4, 0);
    assigned.assign(&Proposal::Single(vec![7, 7]), 1);
    assigned.assign(&Proposal::Batch(vec![vec![7, 7], vec![8]]), 2);
    assert_eq!(assigned.len(), 2);
    // forgetting sequence number 1 forgets the payload, though it was
    // assigned again at 2
    assigned.checkpoint(1);
    assert!(!assigned.is_assigned(&[7, 7]));
    assert!(assigned.is_assigned(&[8]));
}
