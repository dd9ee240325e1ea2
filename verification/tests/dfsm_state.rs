use pmxcfs::api_types::MemberInfo;
use pmxcfs::dfsm::dfsm_message::DfsmMessage;
use pmxcfs::dfsm::fuse_message::FuseMessage;
use pmxcfs::dfsm::state_machine::{DfsmCore, StateOutcome, MAX_QUEUE_LEN};
use pmxcfs::dfsm::types::{DfsmMode, SyncEpoch};

fn member(node_id: u32, pid: u32) -> MemberInfo {
    MemberInfo { node_id, pid, joined_at: 0 }
}

fn new_core(nodeid: u32) -> DfsmCore<String> {
    let mut c = DfsmCore::new(100, 1);
    c.set_nodeid(nodeid);
    c
}

#[test]
fn error_modes_only_rise() {
    let mut c = new_core(1);
    c.set_mode(DfsmMode::Error);
    c.set_mode(DfsmMode::Leave);
    assert_eq!(c.get_mode(), DfsmMode::Error);
    c.set_mode(DfsmMode::Synced);
    assert_eq!(c.get_mode(), DfsmMode::Synced);
    c.set_mode(DfsmMode::Leave);
    c.set_mode(DfsmMode::VersionError);
    assert_eq!(c.get_mode(), DfsmMode::VersionError);
    assert!(c.is_error());
}

#[test]
fn single_member_is_synced_at_once() {
    let mut c = new_core(1);
    let old = c.begin_membership_change(&vec![member(1, 100)], 5000);
    assert!(old.is_empty());
    let a = c.complete_membership_change(1);
    assert!(!a.start_sync);
    assert!(c.is_synced());
    assert!(c.is_leader());
    let e = c.get_sync_epoch();
    assert_eq!(e, SyncEpoch { epoch: 1, time: 5000, nodeid: 1, pid: 100 });
    assert!(c.get_sync_nodes()[0].synced);
}

#[test]
fn several_members_start_sync_and_lowest_leads() {
    let mut c = new_core(2);
    c.begin_membership_change(&vec![member(3, 7), member(2, 100), member(5, 9)], 10);
    let a = c.complete_membership_change(3);
    assert_eq!(c.get_mode(), DfsmMode::StartSync);
    assert!(c.is_leader());
    assert!(a.start_sync);
    let mut d = new_core(3);
    d.begin_membership_change(&vec![member(3, 7), member(2, 100)], 10);
    let a = d.complete_membership_change(2);
    assert!(!a.start_sync);
    assert!(!d.is_leader());
}

#[test]
fn state_exchange_outcomes() {
    let mut c = new_core(1);
    c.begin_membership_change(&vec![member(1, 100), member(2, 200)], 10);
    c.complete_membership_change(2);
    assert_eq!(c.process_state(1, 100, vec![1]), StateOutcome::Stored);
    assert_eq!(c.process_state(2, 200, vec![2]), StateOutcome::AllReceived);
    assert_eq!(c.get_mode(), DfsmMode::StartSync);
    assert_eq!(c.process_state(2, 200, vec![2]), StateOutcome::Duplicate);
    assert_eq!(c.get_mode(), DfsmMode::Leave);
    let mut d = new_core(1);
    d.begin_membership_change(&vec![member(1, 100)], 10);
    assert_eq!(d.process_state(9, 9, vec![]), StateOutcome::NonMember);
    assert_eq!(d.get_mode(), DfsmMode::Leave);
}

#[test]
fn queued_messages_are_delivered_once_synced() {
    let mut c = new_core(1);
    c.begin_membership_change(&vec![member(1, 100), member(2, 200)], 10);
    c.complete_membership_change(2);
    assert!(c.handle_normal_message(2, 200, 5, 1, "b".to_string()).is_none());
    assert!(c.handle_normal_message(2, 200, 3, 1, "a".to_string()).is_none());
    assert!(c.handle_normal_message(9, 9, 4, 1, "stranger".to_string()).is_none());
    c.process_state(1, 100, vec![]);
    c.process_state(2, 200, vec![]);
    let delivered = c.state_sync_done(Some(true));
    // only our own node is marked in sync, so node 2's messages stay queued; the stranger's go
    assert!(delivered.is_empty());
    assert!(c.is_synced());
    let now = c.handle_normal_message(1, 100, 9, 2, "mine".to_string()).unwrap();
    assert_eq!(now.message, "mine");
    assert_eq!(now.timestamp, 2);
}

#[test]
fn queue_drops_oldest_when_full() {
    let mut c = new_core(1);
    for i in 0..(MAX_QUEUE_LEN as u64 + 10) {
        c.queue_message(1, 1, i, format!("m{i}"), 0);
    }
    c.begin_membership_change(&vec![member(1, 1)], 0);
    let a = c.complete_membership_change(1);
    assert_eq!(a.deliver.len(), MAX_QUEUE_LEN);
    assert_eq!(a.deliver[0].msg_count, 10);
    assert_eq!(a.deliver[MAX_QUEUE_LEN - 1].msg_count, MAX_QUEUE_LEN as u64 + 9);
}

#[test]
fn same_count_replaces_queued_message() {
    let mut c = new_core(1);
    c.queue_message(1, 1, 7, "old".to_string(), 0);
    c.queue_message(1, 1, 7, "new".to_string(), 0);
    c.begin_membership_change(&vec![member(1, 1)], 0);
    let a = c.complete_membership_change(1);
    assert_eq!(a.deliver.len(), 1);
    assert_eq!(a.deliver[0].message, "new");
}

#[test]
fn update_mode_defers_messages_until_complete() {
    let mut c = new_core(2);
    c.begin_membership_change(&vec![member(1, 1), member(2, 100)], 0);
    c.complete_membership_change(2);
    c.process_state(1, 1, vec![]);
    c.process_state(2, 100, vec![]);
    let delivered = c.state_sync_done(Some(false));
    assert!(delivered.is_empty());
    assert_eq!(c.get_mode(), DfsmMode::Update);
    assert!(c.handle_normal_message(1, 1, 1, 0, "x".to_string()).is_none());
    let done = c.handle_update_complete();
    assert!(done.is_empty());
    assert!(c.is_synced());
}

#[test]
fn failed_state_sync_is_an_error() {
    let mut c = new_core(1);
    assert!(c.state_sync_done(None).is_empty());
    assert_eq!(c.get_mode(), DfsmMode::Error);
}

#[test]
fn verification_requests_and_answers() {
    let mut c = new_core(1);
    c.begin_membership_change(&vec![member(1, 100)], 0);
    c.complete_membership_change(1);
    assert_eq!(c.verify_request(), Some(1));
    assert_eq!(c.verify_request(), None);
    let epoch = c.get_sync_epoch();
    let answer_epoch = c.handle_verify_request(epoch, 1, [7u8; 32]);
    assert_eq!(answer_epoch, epoch);
    assert!(c.handle_verify(epoch, 1, &[7u8; 32]));
    assert!(c.handle_verify(epoch, 2, &[8u8; 32]));
    assert!(c.is_synced());
    assert!(!c.handle_verify(epoch, 1, &[8u8; 32]));
    assert_eq!(c.get_mode(), DfsmMode::Leave);
    assert_eq!(c.verify_request(), None);
}

#[test]
fn epoch_filter_on_protocol_messages() {
    let mut c = new_core(1);
    c.begin_membership_change(&vec![member(1, 100)], 42);
    let current = c.get_sync_epoch();
    let other = SyncEpoch { epoch: 99, ..current };
    assert!(c.accepts_message(&DfsmMessage::<FuseMessage>::SyncStart { sync_epoch: other }));
    assert!(c.accepts_message(&DfsmMessage::<FuseMessage>::UpdateComplete { sync_epoch: current }));
    assert!(!c.accepts_message(&DfsmMessage::<FuseMessage>::UpdateComplete { sync_epoch: other }));
    assert!(!c.accepts_message(&DfsmMessage::<FuseMessage>::VerifyRequest { sync_epoch: other, csum_id: 1 }));
    assert!(c.handle_sync_start(2, other));
    assert_eq!(c.get_sync_epoch(), other);
    assert!(!c.handle_sync_start(1, current));
}

#[test]
fn message_counts_increase_and_broadcast_needs_sync() {
    let mut c = new_core(1);
    assert_eq!(c.broadcast_count(), None);
    assert_eq!(c.next_msg_count(), 1);
    c.begin_membership_change(&vec![member(1, 100)], 0);
    c.complete_membership_change(1);
    assert_eq!(c.broadcast_count(), Some(2));
}

#[test]
fn invalidate_checksum_resets_epoch() {
    let mut c = new_core(1);
    c.handle_verify_request(SyncEpoch { epoch: 1, time: 2, nodeid: 3, pid: 4 }, 9, [1u8; 32]);
    c.invalidate_checksum();
    // the saved checksum no longer answers for id 9
    assert!(c.handle_verify(SyncEpoch { epoch: 1, time: 2, nodeid: 3, pid: 4 }, 9, &[0u8; 32]));
}

#[test]
fn full_message_queue_drops_least_count() {
    let mut c = new_core(1);
    for i in 0..MAX_QUEUE_LEN as u64 {
        c.queue_message(1, 1, 10 + i, format!("m{i}"), 0);
    }
    // a message with a count below all others still goes in; the least count is dropped first
    c.queue_message(1, 1, 5, "early".to_string(), 0);
    c.begin_membership_change(&vec![member(1, 1)], 0);
    let a = c.complete_membership_change(1);
    assert_eq!(a.deliver.len(), MAX_QUEUE_LEN);
    assert_eq!(a.deliver[0].msg_count, 5);
    assert_eq!(a.deliver[1].msg_count, 11);
    assert_eq!(a.deliver[MAX_QUEUE_LEN - 1].msg_count, 10 + MAX_QUEUE_LEN as u64 - 1);
}
