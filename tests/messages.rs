use phala_core::messages::{
    MessageContext, MessageState, MessagesAction, MessagesEvent, Sequencer, SignedMessage,
    TX_TIMEOUT_IN_BLOCKS,
};

fn msg(sequence: u64) -> SignedMessage {
    SignedMessage { sequence, payload: vec![sequence as u8, 0xaa] }
}

fn msgs(seqs: &[u64]) -> Vec<SignedMessage> {
    seqs.iter().map(|s| msg(*s)).collect()
}

fn sync(sender: &[u8], seqs: &[u64]) -> MessagesEvent {
    MessagesEvent::SyncMessages(("w1".to_string(), 7, sender.to_vec(), msgs(seqs)))
}

fn do_sync(sender: &[u8], seqs: &[u64], next: Option<u64>) -> MessagesEvent {
    MessagesEvent::DoSyncMessages(("w1".to_string(), 7, sender.to_vec(), msgs(seqs), next))
}

fn completed(sender: &[u8], seq: u64, result: Result<(), String>) -> MessagesEvent {
    MessagesEvent::Completed(("w1".to_string(), sender.to_vec(), seq, result))
}

fn refreshed(actions: &[MessagesAction]) -> Vec<u64> {
    assert_eq!(actions.len(), 1);
    match &actions[0] {
        MessagesAction::RefreshSequence((w, pool, _, m)) => {
            assert_eq!(w, "w1");
            assert_eq!(*pool, 7);
            m.iter().map(|x| x.sequence).collect()
        }
        _ => panic!("expected a refresh"),
    }
}

fn submitted(actions: &[MessagesAction]) -> Vec<u64> {
    actions
        .iter()
        .map(|a| match a {
            MessagesAction::Submit((w, pool, s, m)) => {
                assert_eq!(w, "w1");
                assert_eq!(*pool, 7);
                assert!(!s.is_empty());
                assert_eq!(m.payload, vec![m.sequence as u8, 0xaa]);
                m.sequence
            }
            _ => panic!("expected a submission"),
        })
        .collect()
}

fn ctx(state: MessageState, submitted_at: u32) -> MessageContext {
    MessageContext { sequence: 0, state, submitted_at, prev_try_count: 0 }
}

#[test]
fn timeout_blocks_constant() {
    assert_eq!(TX_TIMEOUT_IN_BLOCKS, 6);
}

#[test]
fn pending_predicates_table() {
    assert!(ctx(MessageState::Pending, 10).is_pending(9));
    assert!(ctx(MessageState::Pending, 10).is_pending(16));
    assert!(!ctx(MessageState::Pending, 10).is_pending(17));
    assert!(ctx(MessageState::Timeout, 10).is_pending(10));
    assert!(ctx(MessageState::Timeout, 10).is_pending(16));
    assert!(!ctx(MessageState::Timeout, 10).is_pending(17));
    assert!(!ctx(MessageState::Successful, 10).is_pending(10));
    assert!(!ctx(MessageState::Failure, 10).is_pending(10));
    assert!(ctx(MessageState::Successful, 10).is_pending_or_success(100));
    assert!(!ctx(MessageState::Successful, 10).is_timeout_or_failure(100));
    assert!(ctx(MessageState::Failure, 10).is_timeout_or_failure(10));
    assert!(ctx(MessageState::Pending, 10).is_timeout_or_failure(17));
}

#[test]
fn timeout_within_grace_is_pending() {
    let c = ctx(MessageState::Timeout, 100);
    for h in 100..=106 {
        assert!(c.is_pending(h));
    }
    assert!(!c.is_pending(107));
}

#[test]
fn all_ok_advances_to_three() {
    let a: &[u8] = b"A";
    let mut seq = Sequencer::new();
    seq.handle_event(MessagesEvent::CurrentHeight(5));
    assert_eq!(refreshed(&seq.handle_event(sync(a, &[0, 1, 2]))), vec![0, 1, 2]);
    assert_eq!(submitted(&seq.handle_event(do_sync(a, &[0, 1, 2], Some(0)))), vec![0, 1, 2]);
    for s in 0..3 {
        assert!(seq.handle_event(completed(a, s, Ok(()))).is_empty());
    }
    for s in 0..3 {
        assert_eq!(seq.message_context(&a.to_vec(), s).unwrap().state, MessageState::Successful);
    }
    assert_eq!(seq.next_sequence_of(&a.to_vec()), Some(3));
    assert!(seq.handle_event(sync(a, &[0, 1, 2])).is_empty());
}

#[test]
fn timed_out_message_waits_out_grace() {
    let a: &[u8] = b"A";
    let mut seq = Sequencer::new();
    seq.handle_event(MessagesEvent::CurrentHeight(10));
    refreshed(&seq.handle_event(sync(a, &[0])));
    assert_eq!(submitted(&seq.handle_event(do_sync(a, &[0], Some(0)))), vec![0]);
    let actions = seq.handle_event(completed(a, 0, Err("rpc: Tx timed out!".to_string())));
    assert_eq!(actions.len(), 1);
    match &actions[0] {
        MessagesAction::ReportError((w, e)) => {
            assert_eq!(w, "w1");
            assert_eq!(e, "rpc: Tx timed out!");
        }
        _ => panic!("expected an error report"),
    }
    assert_eq!(seq.message_context(&a.to_vec(), 0).unwrap().state, MessageState::Timeout);

    seq.handle_event(MessagesEvent::CurrentHeight(14));
    assert!(seq.handle_event(sync(a, &[0])).is_empty());
    seq.handle_event(MessagesEvent::CurrentHeight(16));
    assert!(seq.handle_event(sync(a, &[0])).is_empty());
    seq.handle_event(MessagesEvent::CurrentHeight(17));
    assert_eq!(refreshed(&seq.handle_event(sync(a, &[0]))), vec![0]);
    assert_eq!(submitted(&seq.handle_event(do_sync(a, &[0], Some(0)))), vec![0]);
    let c = seq.message_context(&a.to_vec(), 0).unwrap();
    assert_eq!(c.state, MessageState::Pending);
    assert_eq!(c.submitted_at, 17);
    assert_eq!(c.prev_try_count, 1);
}

#[test]
fn unknown_sender_gets_refreshed_then_submitted() {
    let b: &[u8] = b"B";
    let mut seq = Sequencer::new();
    assert_eq!(refreshed(&seq.handle_event(sync(b, &[5, 6]))), vec![5, 6]);
    assert_eq!(submitted(&seq.handle_event(do_sync(b, &[5, 6], Some(5)))), vec![5, 6]);
    assert_eq!(seq.next_sequence_of(&b.to_vec()), Some(7));
}

#[test]
fn later_sequence_waits_for_earlier() {
    let b: &[u8] = b"B";
    let mut seq = Sequencer::new();
    assert!(submitted(&seq.handle_event(do_sync(b, &[6], Some(5)))).is_empty());
    assert_eq!(submitted(&seq.handle_event(do_sync(b, &[5], None))), vec![5]);
    assert_eq!(submitted(&seq.handle_event(do_sync(b, &[6], None))), vec![6]);
}

#[test]
fn failed_message_is_retried() {
    let a: &[u8] = b"A";
    let mut seq = Sequencer::new();
    submitted(&seq.handle_event(do_sync(a, &[3], Some(3))));
    assert_eq!(seq.handle_event(completed(a, 3, Err("bad nonce".to_string()))).len(), 1);
    assert_eq!(seq.message_context(&a.to_vec(), 3).unwrap().state, MessageState::Failure);
    assert_eq!(refreshed(&seq.handle_event(sync(a, &[3]))), vec![3]);
    assert_eq!(submitted(&seq.handle_event(do_sync(a, &[3], None))), vec![3]);
    assert_eq!(seq.message_context(&a.to_vec(), 3).unwrap().prev_try_count, 1);
    seq.handle_event(completed(a, 3, Err("bad nonce".to_string())));
    assert_eq!(submitted(&seq.handle_event(do_sync(a, &[3], None))), vec![3]);
    assert_eq!(seq.message_context(&a.to_vec(), 3).unwrap().prev_try_count, 2);
}

#[test]
fn successful_message_is_filtered() {
    let a: &[u8] = b"A";
    let mut seq = Sequencer::new();
    submitted(&seq.handle_event(do_sync(a, &[0, 1], Some(0))));
    seq.handle_event(completed(a, 0, Ok(())));
    assert_eq!(refreshed(&seq.handle_event(sync(a, &[0, 2]))), vec![2]);
}

#[test]
fn sequence_ahead_is_skipped() {
    let a: &[u8] = b"A";
    let mut seq = Sequencer::new();
    assert!(submitted(&seq.handle_event(do_sync(a, &[7, 9], Some(5)))).is_empty());
    assert_eq!(seq.next_sequence_of(&a.to_vec()), Some(5));
    assert!(seq.message_context(&a.to_vec(), 7).is_none());
}

#[test]
fn new_sender_without_sequence_is_abandoned() {
    let a: &[u8] = b"A";
    let mut seq = Sequencer::new();
    assert!(seq.handle_event(do_sync(a, &[0], None)).is_empty());
    assert_eq!(seq.next_sequence_of(&a.to_vec()), None);
}

#[test]
fn completion_for_unknown_is_dropped() {
    let a: &[u8] = b"A";
    let mut seq = Sequencer::new();
    assert!(seq.handle_event(completed(a, 0, Err("x".to_string()))).is_empty());
    submitted(&seq.handle_event(do_sync(a, &[0], Some(0))));
    assert!(seq.handle_event(completed(a, 4, Err("x".to_string()))).is_empty());
    assert!(!seq.complete(&a.to_vec(), 9, &Ok(())));
}

#[test]
fn remove_sender_forgets_everything() {
    let a: &[u8] = b"A";
    let mut seq = Sequencer::new();
    submitted(&seq.handle_event(do_sync(a, &[0], Some(0))));
    assert!(seq.handle_event(MessagesEvent::RemoveSender(a.to_vec())).is_empty());
    assert_eq!(seq.next_sequence_of(&a.to_vec()), None);
    assert!(!seq.remove_sender(&a.to_vec()));
}

#[test]
fn fresh_sequence_overrides_known() {
    let a: &[u8] = b"A";
    let mut seq = Sequencer::new();
    submitted(&seq.handle_event(do_sync(a, &[0], Some(0))));
    assert_eq!(submitted(&seq.handle_event(do_sync(a, &[10], Some(10)))), vec![10]);
    assert_eq!(seq.next_sequence_of(&a.to_vec()), Some(11));
}

#[test]
fn height_event_updates_height() {
    let mut seq = Sequencer::new();
    assert_eq!(seq.current_height(), 0);
    assert!(seq.handle_event(MessagesEvent::CurrentHeight(42)).is_empty());
    assert_eq!(seq.current_height(), 42);
}
