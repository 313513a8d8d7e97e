use phala_core::replay::{
    get_checkpoint_path, restart_required, ReplayDriver, ReplayError, ReplayFactory,
};

#[test]
fn state_root_mismatch_does_not_advance() {
    let mut f = ReplayFactory::new();
    assert_eq!(f.dispatch_block(7, &vec![1, 2, 3], &vec![1, 2, 3], true), Ok(()));
    assert_eq!(f.current_block, 7);
    assert_eq!(
        f.dispatch_block(8, &vec![1, 2, 3], &vec![1, 2, 4], true),
        Err(ReplayError::StateRootMismatch)
    );
    assert_eq!(f.current_block, 7);
    assert_eq!(f.check_state_root(&vec![1], &vec![1, 0]), Err(ReplayError::StateRootMismatch));
    assert_eq!(f.check_state_root(&vec![4, 5], &vec![4, 5]), Ok(()));
}

#[test]
fn unreadable_messages_do_not_advance() {
    let mut f = ReplayFactory::new();
    assert_eq!(
        f.dispatch_block(9, &vec![1, 2], &vec![1, 2], false),
        Err(ReplayError::MessagesUnavailable)
    );
    assert_eq!(f.current_block, 0);
    assert_eq!(
        f.dispatch_block(9, &vec![1, 2], &vec![1, 3], false),
        Err(ReplayError::StateRootMismatch)
    );
    assert_eq!(f.current_block, 0);
    assert_eq!(f.dispatch_block(9, &vec![1, 2], &vec![1, 2], true), Ok(()));
    assert_eq!(f.current_block, 9);
}

#[test]
fn error_texts() {
    assert_eq!(ReplayError::StateRootMismatch.as_str(), "State root mismatch");
    assert_eq!(
        ReplayError::MessagesUnavailable.as_str(),
        "Can not get mq messages from storage"
    );
}

#[test]
fn fresh_factory_counters() {
    let f = ReplayFactory::new();
    assert_eq!(f.next_event_seq, 1);
    assert_eq!(f.current_block, 0);
    assert!(!f.gk_launched);
}

#[test]
fn messages_wait_for_gatekeeper_launch() {
    let mut f = ReplayFactory::new();
    assert_eq!(f.plan_inbound(&vec![false, false]), None);
    assert!(!f.gk_launched);
    assert_eq!(f.plan_inbound(&vec![false, true, false]), Some(1));
    assert!(f.gk_launched);
    assert_eq!(f.plan_inbound(&vec![false, false]), Some(0));
    assert_eq!(f.plan_inbound(&vec![]), None);
}

#[test]
fn event_sequences_are_consecutive() {
    let mut f = ReplayFactory::new();
    assert_eq!(f.take_event_seq(), 1);
    assert_eq!(f.take_event_seq(), 2);
    assert_eq!(f.next_event_seq, 3);
}

#[test]
fn checkpoint_every_interval() {
    let mut d = ReplayDriver::new(50, 100, 3, None);
    assert_eq!(d.block_number, 101);
    let mut taken = vec![];
    while d.block_number <= 105 {
        let n = d.block_number;
        if d.block_done() {
            taken.push(n);
        }
    }
    assert_eq!(taken, vec![103]);
    assert_eq!(d.last_checkpoint_block, 103);
}

#[test]
fn no_checkpoint_with_zero_interval() {
    let mut d = ReplayDriver::new(0, 0, 0, None);
    assert_eq!(d.block_number, 1);
    for _ in 0..10 {
        assert!(!d.block_done());
    }
}

#[test]
fn driver_starts_after_later_of_start_and_checkpoint() {
    assert_eq!(ReplayDriver::new(200, 100, 0, None).block_number, 201);
    assert_eq!(ReplayDriver::new(10, 0, 0, None).block_number, 11);
}

#[test]
fn driver_stops_and_waits() {
    let d = ReplayDriver::new(9, 0, 0, Some(10));
    assert!(d.finished());
    let d = ReplayDriver::new(8, 0, 0, Some(10));
    assert!(!d.finished());
    assert!(!ReplayDriver::new(8, 0, 0, None).finished());
    assert!(d.block_ready(9, 9, 0));
    assert!(d.block_ready(9, 0, 9));
    assert!(!d.block_ready(8, 9, 9));
    assert!(!d.block_ready(20, 5, 8));
}

#[test]
fn restart_required_detects_marker() {
    assert!(restart_required("rpc error: restart required now"));
    assert!(!restart_required("restart is required"));
    assert!(!restart_required(""));
}

#[test]
fn checkpoint_path_choice() {
    assert_eq!(get_checkpoint_path(&Some("cp.5".to_string()), true), Some("cp.5".to_string()));
    assert_eq!(get_checkpoint_path(&Some(String::new()), true), None);
    assert_eq!(get_checkpoint_path(&None, true), Some("checkpoint.latest".to_string()));
    assert_eq!(get_checkpoint_path(&None, false), None);
}
