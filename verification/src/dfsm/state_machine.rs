//! Decisions of the distributed state machine: mode transitions, queueing and delivery of
//! application messages, state exchange during synchronization, membership changes and
//! checksum verification. Sending, receiving and the application callbacks are done by the
//! caller, which hands the events in and performs the actions handed back.

use vstd::prelude::*;
use std::collections::{BTreeMap, VecDeque};
use crate::api_types::{MemberInfo, NodeSyncInfo, NodeSyncView};
use crate::dfsm::types::{DfsmMode, SyncEpoch, mode_code};
use crate::dfsm::dfsm_message::DfsmMessage;
use crate::dfsm::message::Message;

verus! {

broadcast use {vstd::std_specs::vecdeque::group_vec_dequeue_axioms, vstd::std_specs::btree::group_btree_axioms, vstd::laws_cmp::group_laws_cmp};

/// Most messages a queue holds; the oldest one is dropped to make room.
pub const MAX_QUEUE_LEN: usize = 500;

/// Result of a delivered message, for a sender waiting on it.
#[derive(Debug, Clone)]
pub struct MessageResult {
    /// Message count the result belongs to
    pub msgcount: u64,
    /// Result of the delivery: 0 or a negative errno
    pub result: i32,
    /// Whether the message was processed
    pub processed: bool,
}

/// An application message waiting for delivery.
#[derive(Debug)]
pub struct QueuedMessage<M> {
    /// Sending node
    pub nodeid: u32,
    /// Sending process
    pub pid: u32,
    /// Sender's message count
    pub msg_count: u64,
    /// The message
    pub message: M,
    /// Sender's time stamp
    pub timestamp: u64,
}

/// Mode after asking for `new` in mode `old`: a change is refused only when both are
/// error modes and `new` has the lower code.
pub open spec fn transition(old: DfsmMode, new: DfsmMode) -> DfsmMode {
    if old != new && (mode_code(new) < 128 || mode_code(old) < 128 || mode_code(new) >= mode_code(old)) {
        new
    } else {
        old
    }
}

/// Index of the first node with this id and process, from index `i` on; -1 when none.
pub open spec fn find_node_from(nodes: Seq<NodeSyncView>, nodeid: u32, pid: u32, i: int) -> int
    decreases nodes.len() - i,
{
    if i < 0 || i >= nodes.len() {
        -1
    } else if nodes[i].node_id == nodeid && nodes[i].pid == pid {
        i
    } else {
        find_node_from(nodes, nodeid, pid, i + 1)
    }
}

/// Index of the first node with this id and process; -1 when none.
pub open spec fn find_node(nodes: Seq<NodeSyncView>, nodeid: u32, pid: u32) -> int {
    find_node_from(nodes, nodeid, pid, 0)
}

/// Whether the node with this id and process is known and in sync.
pub open spec fn node_synced(nodes: Seq<NodeSyncView>, nodeid: u32, pid: u32) -> bool {
    find_node(nodes, nodeid, pid) >= 0 && nodes[find_node(nodes, nodeid, pid)].synced
}

/// Message counts strictly increase along the queue.
pub open spec fn counts_sorted<M>(q: Seq<QueuedMessage<M>>) -> bool {
    forall|i: int, j: int| 0 <= i < j < q.len() ==> (#[trigger] q[i]).msg_count < (#[trigger] q[j]).msg_count
}

/// The messages of a queue by their counts.
pub open spec fn count_map<M>(q: Seq<QueuedMessage<M>>) -> Map<u64, QueuedMessage<M>>
    decreases q.len(),
{
    if q.len() == 0 {
        Map::empty()
    } else {
        count_map(q.drop_last()).insert(q.last().msg_count, q.last())
    }
}

proof fn lemma_sorted_drop_last<M>(q: Seq<QueuedMessage<M>>)
    requires
        counts_sorted(q),
        q.len() > 0,
    ensures
        counts_sorted(q.drop_last()),
{
    let d = q.drop_last();
    assert forall|a: int, b: int| 0 <= a < b < d.len() implies (#[trigger] d[a]).msg_count < (#[trigger] d[b]).msg_count by {
        assert(d[a] == q[a] && d[b] == q[b]);
    }
}

/// An ordered queue by counts: exactly its counts are keys, each leading to its message,
/// one key per message.
proof fn lemma_count_map<M>(q: Seq<QueuedMessage<M>>)
    requires
        counts_sorted(q),
    ensures
        forall|k: u64| #[trigger] count_map(q).contains_key(k) <==> exists|i: int| 0 <= i < q.len() && q[i].msg_count == k,
        forall|i: int| 0 <= i < q.len() ==> #[trigger] count_map(q)[q[i].msg_count] == q[i] && count_map(q).contains_key(q[i].msg_count),
        count_map(q).dom().finite(),
        count_map(q).dom().len() == q.len(),
    decreases q.len(),
{
    if q.len() > 0 {
        let d = q.drop_last();
        let l = q.last();
        lemma_sorted_drop_last(q);
        lemma_count_map(d);
        assert(!count_map(d).contains_key(l.msg_count)) by {
            if count_map(d).contains_key(l.msg_count) {
                let i = choose|i: int| 0 <= i < d.len() && d[i].msg_count == l.msg_count;
                assert(q[i].msg_count < q[q.len() - 1].msg_count);
            }
        }
        assert forall|k: u64| #[trigger] count_map(q).contains_key(k) <==> exists|i: int| 0 <= i < q.len() && q[i].msg_count == k by {
            if count_map(q).contains_key(k) && k != l.msg_count {
                let i = choose|i: int| 0 <= i < d.len() && d[i].msg_count == k;
                assert(q[i].msg_count == k);
            }
            if exists|i: int| 0 <= i < q.len() && q[i].msg_count == k {
                let i = choose|i: int| 0 <= i < q.len() && q[i].msg_count == k;
                if i < d.len() {
                    assert(d[i].msg_count == k);
                }
            }
        }
        assert forall|i: int| 0 <= i < q.len() implies #[trigger] count_map(q)[q[i].msg_count] == q[i] && count_map(q).contains_key(q[i].msg_count) by {
            if i < d.len() {
                assert(d[i] == q[i]);
                assert(q[i].msg_count < q[q.len() - 1].msg_count);
            }
        }
    }
}

/// Storing under a count in an ordered queue stores the message under its count.
proof fn lemma_count_map_insert<M>(q: Seq<QueuedMessage<M>>, m: QueuedMessage<M>)
    requires
        counts_sorted(q),
    ensures
        count_map(count_insert(q, m)) == count_map(q).insert(m.msg_count, m),
    decreases q.len(),
{
    if q.len() == 0 {
        assert(seq![m].drop_last() =~= Seq::<QueuedMessage<M>>::empty());
        assert(count_map(Seq::<QueuedMessage<M>>::empty()) == Map::<u64, QueuedMessage<M>>::empty());
        assert(count_map(seq![m]) =~= count_map(q).insert(m.msg_count, m));
    } else {
        let d = q.drop_last();
        let l = q.last();
        if l.msg_count == m.msg_count {
            assert(count_map(d.push(m)) == count_map(d).insert(m.msg_count, m)) by {
                assert(d.push(m).drop_last() =~= d);
            }
            assert(count_map(q).insert(m.msg_count, m) =~= count_map(d).insert(m.msg_count, m));
        } else if m.msg_count < l.msg_count {
            lemma_sorted_drop_last(q);
            lemma_count_map_insert(d, m);
            let r0 = count_insert(d, m);
            assert(count_insert(q, m) == r0.push(l));
            assert(r0.push(l).drop_last() =~= r0);
            assert(r0.push(l).last() == l);
            assert(count_map(r0.push(l)) == count_map(r0).insert(l.msg_count, l));
            assert(count_map(q) == count_map(d).insert(l.msg_count, l));
            assert(count_map(r0.push(l)) =~= count_map(q).insert(m.msg_count, m));
        } else {
            assert(count_insert(q, m) == q.push(m));
            assert(q.push(m).drop_last() =~= q);
            assert(q.push(m).last() == m);
        }
    }
}

/// Dropping the oldest message of an ordered queue removes its count.
proof fn lemma_count_map_drop_first<M>(q: Seq<QueuedMessage<M>>)
    requires
        counts_sorted(q),
        q.len() > 0,
    ensures
        count_map(q.drop_first()) == count_map(q).remove(q[0].msg_count),
    decreases q.len(),
{
    if q.len() == 1 {
        assert(q.drop_first() =~= Seq::<QueuedMessage<M>>::empty());
        assert(q.drop_last() =~= Seq::<QueuedMessage<M>>::empty());
        assert(count_map(Seq::<QueuedMessage<M>>::empty()) == Map::<u64, QueuedMessage<M>>::empty());
        assert(q.last() == q[0]);
        assert(count_map(q) == Map::<u64, QueuedMessage<M>>::empty().insert(q[0].msg_count, q[0]));
        assert(count_map(q).remove(q[0].msg_count) =~= Map::<u64, QueuedMessage<M>>::empty());
    } else {
        let d = q.drop_last();
        lemma_sorted_drop_last(q);
        lemma_count_map_drop_first(d);
        assert(q.drop_first().drop_last() =~= d.drop_first());
        assert(q.drop_first().last() == q.last());
        assert(d[0] == q[0]);
        assert(count_map(q.drop_first()) == count_map(d.drop_first()).insert(q.last().msg_count, q.last()));
        assert(count_map(q) == count_map(d).insert(q.last().msg_count, q.last()));
        assert(q[0].msg_count < q[q.len() - 1].msg_count);
        assert(count_map(q.drop_first()) =~= count_map(q).remove(q[0].msg_count));
    }
}

/// Two strictly increasing sequences with the same elements are equal.
proof fn lemma_increasing_unique(a: Seq<u64>, b: Seq<u64>)
    requires
        forall|i: int, j: int| 0 <= i < j < a.len() ==> a[i] < a[j],
        forall|i: int, j: int| 0 <= i < j < b.len() ==> b[i] < b[j],
        forall|x: u64| a.contains(x) <==> b.contains(x),
    ensures
        a == b,
    decreases a.len(),
{
    if a.len() == 0 {
        if b.len() > 0 {
            assert(b.contains(b[0]));
        }
        assert(a =~= b);
    } else {
        assert(a.contains(a[0]));
        assert(b.contains(a[0]));
        assert(b.len() > 0);
        assert(b.contains(b[0]));
        assert(a.contains(b[0]));
        let i = choose|i: int| 0 <= i < a.len() && a[i] == b[0];
        let j = choose|j: int| 0 <= j < b.len() && b[j] == a[0];
        assert(a[0] <= a[i]);
        assert(b[0] <= b[j]);
        assert(a[0] == b[0]);
        let a1 = a.drop_first();
        let b1 = b.drop_first();
        assert forall|x: u64| a1.contains(x) <==> b1.contains(x) by {
            if a1.contains(x) {
                let k = choose|k: int| 0 <= k < a1.len() && a1[k] == x;
                assert(a[k + 1] == x && a[0] < x);
                assert(b.contains(x));
                let h = choose|h: int| 0 <= h < b.len() && b[h] == x;
                assert(h != 0);
                assert(b1[h - 1] == x);
            }
            if b1.contains(x) {
                let k = choose|k: int| 0 <= k < b1.len() && b1[k] == x;
                assert(b[k + 1] == x && b[0] < x);
                assert(a.contains(x));
                let h = choose|h: int| 0 <= h < a.len() && a[h] == x;
                assert(h != 0);
                assert(a1[h - 1] == x);
            }
        }
        lemma_increasing_unique(a1, b1);
        assert(a =~= b) by {
            assert forall|k: int| 0 <= k < a.len() implies a[k] == b[k] by {
                if k > 0 {
                    assert(a[k] == a1[k - 1] && b[k] == b1[k - 1]);
                }
            }
        }
    }
}

/// The increasing keys of the map of an ordered queue are its counts, in order.
proof fn lemma_keys_are_counts<M>(q: Seq<QueuedMessage<M>>, ks: Seq<u64>)
    requires
        counts_sorted(q),
        forall|i: int, j: int| 0 <= i < j < ks.len() ==> ks[i] < ks[j],
        forall|k: u64| count_map(q).contains_key(k) <==> ks.contains(k),
    ensures
        ks == counts_of(q),
{
    lemma_count_map(q);
    let c = counts_of(q);
    assert forall|x: u64| ks.contains(x) <==> c.contains(x) by {
        if ks.contains(x) {
            assert(count_map(q).contains_key(x));
            let i = choose|i: int| 0 <= i < q.len() && q[i].msg_count == x;
            assert(c[i] == x);
        }
        if c.contains(x) {
            let i = choose|i: int| 0 <= i < c.len() && c[i] == x;
            assert(q[i].msg_count == x);
            assert(count_map(q).contains_key(x));
        }
    }
    assert forall|i: int, j: int| 0 <= i < j < c.len() implies c[i] < c[j] by {
        assert(q[i].msg_count < q[j].msg_count);
    }
    lemma_increasing_unique(ks, c);
}

/// The counts of a queue, in order.
pub open spec fn counts_of<M>(q: Seq<QueuedMessage<M>>) -> Seq<u64> {
    q.map_values(|m: QueuedMessage<M>| m.msg_count)
}

/// A queue ordered by message count after storing `m` under its count: a message with
/// the same count is replaced, otherwise `m` goes before the larger counts.
pub open spec fn count_insert<M>(q: Seq<QueuedMessage<M>>, m: QueuedMessage<M>) -> Seq<QueuedMessage<M>>
    decreases q.len(),
{
    if q.len() == 0 {
        seq![m]
    } else if q.last().msg_count == m.msg_count {
        q.drop_last().push(m)
    } else if m.msg_count < q.last().msg_count {
        count_insert(q.drop_last(), m).push(q.last())
    } else {
        q.push(m)
    }
}

/// The oldest message is dropped from a full queue.
pub open spec fn make_room<M>(q: Seq<QueuedMessage<M>>) -> Seq<QueuedMessage<M>> {
    if q.len() >= MAX_QUEUE_LEN {
        q.drop_first()
    } else {
        q
    }
}

/// Where a queued message goes when the queue is delivered.
pub enum Route {
    /// Its sender is no member: dropped
    Drop,
    /// Delivered now
    Deliver,
    /// Moved to the queue of messages waiting for the end of synchronization
    Move,
    /// Kept in the queue
    Keep,
}

/// Route of a queued message in mode `mode` with these nodes.
pub open spec fn route<M>(mode: DfsmMode, nodes: Seq<NodeSyncView>, m: QueuedMessage<M>) -> Route {
    let i = find_node(nodes, m.nodeid, m.pid);
    if i < 0 {
        Route::Drop
    } else if mode == DfsmMode::Synced && nodes[i].synced {
        Route::Deliver
    } else if mode == DfsmMode::Update && nodes[i].synced {
        Route::Move
    } else {
        Route::Keep
    }
}

/// The messages of `q`, in order, whose route is `r`.
pub open spec fn select<M>(q: Seq<QueuedMessage<M>>, mode: DfsmMode, nodes: Seq<NodeSyncView>, r: Route) -> Seq<
    QueuedMessage<M>,
>
    decreases q.len(),
{
    if q.len() == 0 {
        Seq::empty()
    } else if route(mode, nodes, q.last()) == r {
        select(q.drop_last(), mode, nodes, r).push(q.last())
    } else {
        select(q.drop_last(), mode, nodes, r)
    }
}

/// Views of a sequence of node states.
pub open spec fn node_views(s: Seq<NodeSyncInfo>) -> Seq<NodeSyncView> {
    s.map_values(|n: NodeSyncInfo| n@)
}

/// Decision state of the distributed state machine.
pub struct DfsmCore<M> {
    mode: DfsmMode,
    sync_epoch: SyncEpoch,
    local_epoch_counter: u32,
    sync_nodes: Vec<NodeSyncInfo>,
    msg_queue: BTreeMap<u64, QueuedMessage<M>>,
    queued: Ghost<Seq<QueuedMessage<M>>>,
    sync_queue: VecDeque<QueuedMessage<M>>,
    msg_counter: u64,
    lowest_nodeid: u32,
    nodeid: u32,
    pid: u32,
    protocol_version: u32,
    checksum: [u8; 32],
    checksum_epoch: SyncEpoch,
    checksum_id: u64,
    checksum_counter: u64,
}

/// Mathematical view of the decision state.
pub struct DfsmCoreView<M> {
    pub mode: DfsmMode,
    pub sync_epoch: SyncEpoch,
    pub local_epoch_counter: u32,
    pub sync_nodes: Seq<NodeSyncView>,
    pub msg_queue: Seq<QueuedMessage<M>>,
    pub sync_queue: Seq<QueuedMessage<M>>,
    pub msg_counter: u64,
    pub lowest_nodeid: u32,
    pub nodeid: u32,
    pub pid: u32,
    pub protocol_version: u32,
    pub checksum: Seq<u8>,
    pub checksum_epoch: SyncEpoch,
    pub checksum_id: u64,
    pub checksum_counter: u64,
}

impl<M> View for DfsmCore<M> {
    type V = DfsmCoreView<M>;

    closed spec fn view(&self) -> DfsmCoreView<M> {
        DfsmCoreView {
            mode: self.mode,
            sync_epoch: self.sync_epoch,
            local_epoch_counter: self.local_epoch_counter,
            sync_nodes: node_views(self.sync_nodes@),
            msg_queue: self.queued@,
            sync_queue: self.sync_queue@,
            msg_counter: self.msg_counter,
            lowest_nodeid: self.lowest_nodeid,
            nodeid: self.nodeid,
            pid: self.pid,
            protocol_version: self.protocol_version,
            checksum: self.checksum@,
            checksum_epoch: self.checksum_epoch,
            checksum_id: self.checksum_id,
            checksum_counter: self.checksum_counter,
        }
    }
}

/// Whether this node leads: the lowest member id is set and is ours.
pub open spec fn leads<M>(v: DfsmCoreView<M>) -> bool {
    v.lowest_nodeid > 0 && v.lowest_nodeid == v.nodeid
}

/// Index of the first node with this id and process, if any.
fn find_node_index(nodes: &Vec<NodeSyncInfo>, nodeid: u32, pid: u32) -> (r: Option<usize>)
    ensures
        match r {
            Some(i) => i == find_node(node_views(nodes@), nodeid, pid) && i < nodes@.len(),
            None => find_node(node_views(nodes@), nodeid, pid) == -1,
        },
{
    let ghost nv = node_views(nodes@);
    let mut i: usize = 0;
    while i < nodes.len()
        invariant
            i <= nodes@.len(),
            nv == node_views(nodes@),
            find_node(nv, nodeid, pid) == find_node_from(nv, nodeid, pid, i as int),
        decreases nodes@.len() - i,
    {
        assert(nv[i as int] == nodes@[i as int]@);
        if nodes[i].node_id == nodeid && nodes[i].pid == pid {
            return Some(i);
        }
        i = i + 1;
    }
    None
}

/// Dropping the oldest message keeps a queue ordered.
proof fn lemma_sorted_drop_first<M>(q: Seq<QueuedMessage<M>>)
    requires
        counts_sorted(q),
        q.len() > 0,
    ensures
        counts_sorted(q.drop_first()),
{
    let d = q.drop_first();
    assert forall|a: int, b: int| 0 <= a < b < d.len() implies (#[trigger] d[a]).msg_count < (#[trigger] d[b]).msg_count by {
        assert(d[a] == q[a + 1] && d[b] == q[b + 1]);
    }
}


/// Every selected message comes from the queue.
proof fn lemma_select_from<M>(q: Seq<QueuedMessage<M>>, mode: DfsmMode, nodes: Seq<NodeSyncView>, r: Route)
    ensures
        select(q, mode, nodes, r).len() <= q.len(),
        forall|x: QueuedMessage<M>| select(q, mode, nodes, r).contains(x) ==> q.contains(x),
    decreases q.len(),
{
    if q.len() > 0 {
        lemma_select_from(q.drop_last(), mode, nodes, r);
        let p = select(q.drop_last(), mode, nodes, r);
        assert forall|x: QueuedMessage<M>| select(q, mode, nodes, r).contains(x) implies q.contains(x) by {
            if p.contains(x) {
                assert(q.drop_last().contains(x));
                let i = choose|i: int| 0 <= i < q.drop_last().len() && q.drop_last()[i] == x;
                assert(q[i] == x);
            } else {
                assert(q[q.len() - 1] == x);
            }
        }
    }
}

/// Selecting from an ordered queue keeps it ordered.
proof fn lemma_select_sorted<M>(q: Seq<QueuedMessage<M>>, mode: DfsmMode, nodes: Seq<NodeSyncView>, r: Route)
    requires
        counts_sorted(q),
    ensures
        counts_sorted(select(q, mode, nodes, r)),
    decreases q.len(),
{
    if q.len() > 0 {
        let d = q.drop_last();
        assert(counts_sorted(d)) by {
            assert forall|a: int, b: int| 0 <= a < b < d.len() implies (#[trigger] d[a]).msg_count < (#[trigger] d[b]).msg_count by {
                assert(d[a] == q[a] && d[b] == q[b]);
            }
        }
        lemma_select_sorted(d, mode, nodes, r);
        lemma_select_from(d, mode, nodes, r);
        let p = select(d, mode, nodes, r);
        if route(mode, nodes, q.last()) == r {
            let t = p.push(q.last());
            assert forall|a: int, b: int| 0 <= a < b < t.len() implies (#[trigger] t[a]).msg_count < (#[trigger] t[b]).msg_count by {
                if b == t.len() - 1 {
                    assert(t[a] == p[a]);
                    assert(p.contains(t[a]));
                    assert(d.contains(t[a]));
                    let i = choose|i: int| 0 <= i < d.len() && d[i] == t[a];
                    assert(q[i] == t[a]);
                } else {
                    assert(t[a] == p[a] && t[b] == p[b]);
                }
            }
        }
    }
}

/// Result of a state sent by a member during synchronization.
#[derive(Debug, Clone, Copy, PartialEq, Eq, Structural)]
pub enum StateOutcome {
    /// The sender is no member: the state machine leaves
    NonMember,
    /// The sender had sent its state already: the state machine leaves
    Duplicate,
    /// Stored; states of other members are still missing
    Stored,
    /// Stored; all members have sent their state
    AllReceived,
}

/// Whether every member has sent its state.
pub open spec fn all_states(nodes: Seq<NodeSyncView>) -> bool {
    forall|i: int| 0 <= i < nodes.len() ==> (#[trigger] nodes[i]).state is Some
}

/// Initial synchronization state of the members.
pub open spec fn fresh_nodes(members: Seq<MemberInfo>) -> Seq<NodeSyncView> {
    Seq::new(members.len(), |i: int| NodeSyncView { node_id: members[i].node_id, pid: members[i].pid, state: None, synced: false })
}

/// Lowest node id of the members, 0 when there is none.
pub open spec fn lowest_id(members: Seq<MemberInfo>) -> u32
    decreases members.len(),
{
    if members.len() == 0 {
        0
    } else if members.len() == 1 {
        members[0].node_id
    } else {
        let m = lowest_id(members.drop_last());
        if members.last().node_id < m {
            members.last().node_id
        } else {
            m
        }
    }
}

/// What the caller does after a membership change.
#[derive(Debug)]
pub struct MembershipActions<M> {
    /// Messages to deliver now, in order
    pub deliver: Vec<QueuedMessage<M>>,
    /// Whether to send the start of synchronization and our state (we lead a cluster of
    /// several nodes)
    pub start_sync: bool,
}

impl<M> DfsmCore<M> {
    /// Message queue ordered by count and bounded; the map holds each queued message
    /// under its count.
    pub closed spec fn wf(&self) -> bool {
        &&& counts_sorted(self.queued@)
        &&& self.queued@.len() <= MAX_QUEUE_LEN
        &&& self.msg_queue@ == count_map(self.queued@)
    }

    /// A state machine in start mode with nothing queued, for process `pid` speaking
    /// protocol version `protocol_version`; its node id is set once known.
    pub fn new(pid: u32, protocol_version: u32) -> (r: DfsmCore<M>)
        ensures
            r.wf(),
            r@.mode == DfsmMode::Start,
            r@.sync_epoch == (SyncEpoch { epoch: 0, time: 0, nodeid: 0, pid }),
            r@.local_epoch_counter == 0,
            r@.sync_nodes == Seq::<NodeSyncView>::empty(),
            r@.msg_queue == Seq::<QueuedMessage<M>>::empty(),
            r@.sync_queue == Seq::<QueuedMessage<M>>::empty(),
            r@.msg_counter == 0,
            r@.lowest_nodeid == 0,
            r@.nodeid == 0,
            r@.pid == pid,
            r@.protocol_version == protocol_version,
            r@.checksum == Seq::new(32, |i: int| 0u8),
            r@.checksum_epoch == (SyncEpoch { epoch: 0, time: 0, nodeid: 0, pid: 0 }),
            r@.checksum_id == 0,
            r@.checksum_counter == 0,
    {
        let r = DfsmCore {
            mode: DfsmMode::Start,
            sync_epoch: SyncEpoch { epoch: 0, time: 0, nodeid: 0, pid },
            local_epoch_counter: 0,
            sync_nodes: Vec::new(),
            msg_queue: BTreeMap::new(),
            queued: Ghost(Seq::empty()),
            sync_queue: VecDeque::new(),
            msg_counter: 0,
            lowest_nodeid: 0,
            nodeid: 0,
            pid,
            protocol_version,
            checksum: [0u8; 32],
            checksum_epoch: SyncEpoch { epoch: 0, time: 0, nodeid: 0, pid: 0 },
            checksum_id: 0,
            checksum_counter: 0,
        };
        assert(node_views(r.sync_nodes@) =~= Seq::<NodeSyncView>::empty());
        assert(r.checksum@ =~= Seq::new(32, |i: int| 0u8));
        r
    }

    /// Current mode.
    pub fn get_mode(&self) -> (r: DfsmMode)
        ensures
            r == self@.mode,
    {
        self.mode
    }

    /// Our node id.
    pub fn get_nodeid(&self) -> (r: u32)
        ensures
            r == self@.nodeid,
    {
        self.nodeid
    }

    /// Records our node id, once the cluster has told it.
    pub fn set_nodeid(&mut self, nodeid: u32)
        ensures
            final(self)@ == (DfsmCoreView { nodeid, ..old(self)@ }),
            old(self).wf() ==> final(self).wf(),
    {
        self.nodeid = nodeid;
    }

    /// Our process id.
    pub fn get_pid(&self) -> (r: u32)
        ensures
            r == self@.pid,
    {
        self.pid
    }

    /// Protocol version of our messages.
    pub fn get_protocol_version(&self) -> (r: u32)
        ensures
            r == self@.protocol_version,
    {
        self.protocol_version
    }

    /// Number of the last epoch this node began.
    pub fn get_local_epoch_counter(&self) -> (r: u32)
        ensures
            r == self@.local_epoch_counter,
    {
        self.local_epoch_counter
    }

    /// Count of the last message this node sent.
    pub fn get_msg_counter(&self) -> (r: u64)
        ensures
            r == self@.msg_counter,
    {
        self.msg_counter
    }

    /// Id of the last verification request this node sent.
    pub fn get_checksum_counter(&self) -> (r: u64)
        ensures
            r == self@.checksum_counter,
    {
        self.checksum_counter
    }

    /// Current synchronization epoch.
    pub fn get_sync_epoch(&self) -> (r: SyncEpoch)
        ensures
            r == self@.sync_epoch,
    {
        self.sync_epoch
    }

    /// Copies of the synchronization states of the members.
    pub fn get_sync_nodes(&self) -> (r: Vec<NodeSyncInfo>)
        ensures
            node_views(r@) == self@.sync_nodes,
    {
        let mut out: Vec<NodeSyncInfo> = Vec::new();
        let mut i: usize = 0;
        while i < self.sync_nodes.len()
            invariant
                i <= self.sync_nodes@.len(),
                node_views(out@) == node_views(self.sync_nodes@).take(i as int),
            decreases self.sync_nodes@.len() - i,
        {
            let n = &self.sync_nodes[i];
            let state: Option<Vec<u8>> = match &n.state {
                Some(s) => Some(crate::wire::copy_range(s.as_slice(), 0, s.len())),
                None => None,
            };
            let c = NodeSyncInfo { node_id: n.node_id, pid: n.pid, state, synced: n.synced };
            let ghost prev = node_views(out@);
            out.push(c);
            proof {
                match &n.state {
                    Some(s) => {
                        assert(s@.subrange(0, s@.len() as int) =~= s@);
                    },
                    None => {},
                }
            }
            assert(node_views(out@) =~= prev.push(n@));
            assert(node_views(self.sync_nodes@).take(i + 1) =~= node_views(self.sync_nodes@).take(i as int).push(
                n@,
            ));
            i = i + 1;
        }
        assert(node_views(self.sync_nodes@).take(i as int) =~= node_views(self.sync_nodes@));
        out
    }

    /// Whether this node leads the cluster.
    pub fn is_leader(&self) -> (r: bool)
        ensures
            r == leads(self@),
    {
        self.lowest_nodeid > 0 && self.lowest_nodeid == self.nodeid
    }

    /// Whether all data is up to date.
    pub fn is_synced(&self) -> (r: bool)
        ensures
            r == (self@.mode == DfsmMode::Synced),
    {
        self.mode == DfsmMode::Synced
    }

    /// Whether the state machine is in an error mode.
    pub fn is_error(&self) -> (r: bool)
        ensures
            r == (mode_code(self@.mode) >= 128),
    {
        self.mode.is_error()
    }

    /// Moves to `new_mode` unless both the current and the new mode are error modes and the
    /// new one has the lower code.
    pub fn set_mode(&mut self, new_mode: DfsmMode)
        ensures
            final(self)@ == (DfsmCoreView { mode: transition(old(self)@.mode, new_mode), ..old(self)@ }),
            old(self).wf() ==> final(self).wf(),
    {
        let old_mode = self.mode;
        if old_mode.code() == new_mode.code() {
            return;
        }
        if new_mode.is_error() && old_mode.is_error() && new_mode.code() < old_mode.code() {
            return;
        }
        proof {
            assert(old_mode != new_mode);
        }
        self.mode = new_mode;
    }

    /// Queues an application message: while updating, a message of a node in sync waits
    /// for the end of synchronization; any other message is stored by its count (replacing
    /// one with the same count). A full queue first drops its oldest message.
    pub fn queue_message(&mut self, nodeid: u32, pid: u32, msg_count: u64, message: M, timestamp: u64)
        requires
            old(self).wf(),
        ensures
            final(self).wf(),
            ({
                let qm = QueuedMessage { nodeid, pid, msg_count, message, timestamp };
                if old(self)@.mode == DfsmMode::Update && node_synced(old(self)@.sync_nodes, nodeid, pid) {
                    final(self)@ == (DfsmCoreView { sync_queue: make_room(old(self)@.sync_queue).push(qm), ..old(self)@ })
                } else {
                    final(self)@ == (DfsmCoreView {
                        msg_queue: count_insert(make_room(old(self)@.msg_queue), qm),
                        ..old(self)@
                    })
                }
            }),
    {
        let ghost qm = QueuedMessage { nodeid, pid, msg_count, message, timestamp };
        let node_in_sync = match find_node_index(&self.sync_nodes, nodeid, pid) {
            Some(i) => {
                assert(node_views(self.sync_nodes@)[i as int] == self.sync_nodes@[i as int]@);
                self.sync_nodes[i].synced
            },
            None => false,
        };
        let m = QueuedMessage { nodeid, pid, msg_count, message, timestamp };
        if self.mode == DfsmMode::Update && node_in_sync {
            if self.sync_queue.len() >= MAX_QUEUE_LEN {
                let _ = self.sync_queue.pop_front();
            }
            self.sync_queue.push_back(m);
        } else {
            self.store_by_count(m);

        }
    }

    /// Stores a message under its count (replacing one with the same count), first
    /// dropping the oldest message of a full queue.
    fn store_by_count(&mut self, m: QueuedMessage<M>)
        requires
            old(self).wf(),
        ensures
            final(self).wf(),
            final(self)@ == (DfsmCoreView {
                msg_queue: count_insert(make_room(old(self)@.msg_queue), m),
                ..old(self)@
            }),
    {
        let ghost q = self.queued@;
        proof {
            lemma_count_map(q);
        }
        if self.msg_queue.len() >= MAX_QUEUE_LEN {
            let ks = crate::dfsm::count_keys::sorted_keys(&self.msg_queue);
            proof {
                lemma_keys_are_counts(q, ks@);
                assert(ks@[0] == q[0].msg_count);
                lemma_count_map_drop_first(q);
                lemma_sorted_drop_first(q);
            }
            let k0 = ks[0];
            let _ = self.msg_queue.remove(&k0);
            self.queued = Ghost(q.drop_first());
        }
        let ghost q1 = self.queued@;
        assert(q1 == make_room(q));
        let ghost mv = m;
        proof {
            lemma_count_map_insert(q1, mv);
            lemma_msg_queue_law(q, mv);
        }
        self.msg_queue.insert(m.msg_count, m);
        self.queued = Ghost(count_insert(q1, mv));
    }

    /// Hands out the queued messages to deliver now and sorts the others: messages of
    /// non-members are dropped; when synced, those of nodes in sync are delivered; when
    /// updating, those of nodes in sync move to the queue that waits for the end of
    /// synchronization; the others stay queued.
    pub fn deliver_message_queue(&mut self) -> (r: Vec<QueuedMessage<M>>)
        requires
            old(self).wf(),
        ensures
            final(self).wf(),
            r@ == select(old(self)@.msg_queue, old(self)@.mode, old(self)@.sync_nodes, Route::Deliver),
            final(self)@ == (DfsmCoreView {
                msg_queue: select(old(self)@.msg_queue, old(self)@.mode, old(self)@.sync_nodes, Route::Keep),
                sync_queue: old(self)@.sync_queue + select(
                    old(self)@.msg_queue,
                    old(self)@.mode,
                    old(self)@.sync_nodes,
                    Route::Move,
                ),
                ..old(self)@
            }),
    {
        let ghost q0 = self.queued@;
        let ghost sq0 = self.sync_queue@;
        let ghost mode = self.mode;
        let ghost nodes = node_views(self.sync_nodes@);
        proof {
            lemma_count_map(q0);
        }
        let mut pending: BTreeMap<u64, QueuedMessage<M>> = BTreeMap::new();
        std::mem::swap(&mut pending, &mut self.msg_queue);
        self.queued = Ghost(Seq::empty());
        let ks = crate::dfsm::count_keys::sorted_keys(&pending);
        proof {
            lemma_keys_are_counts(q0, ks@);
        }
        let mut deliver: Vec<QueuedMessage<M>> = Vec::new();
        let mut k: usize = 0;
        assert(q0.take(0) =~= Seq::<QueuedMessage<M>>::empty());
        assert(q0.skip(0) =~= q0);
        assert(sq0 + Seq::<QueuedMessage<M>>::empty() =~= sq0);
        assert(count_map(Seq::<QueuedMessage<M>>::empty()) == Map::<u64, QueuedMessage<M>>::empty());
        while k < ks.len()
            invariant
                ks@ == counts_of(q0),
                k <= q0.len(),
                q0.len() <= MAX_QUEUE_LEN,
                counts_sorted(q0),
                pending@ == count_map(q0.skip(k as int)),
                self@ == (DfsmCoreView { msg_queue: self@.msg_queue, sync_queue: self@.sync_queue, ..old(self)@ }),
                mode == self.mode,
                nodes == node_views(self.sync_nodes@),
                self.queued@ == select(q0.take(k as int), mode, nodes, Route::Keep),
                self.msg_queue@ == count_map(self.queued@),
                deliver@ == select(q0.take(k as int), mode, nodes, Route::Deliver),
                self.sync_queue@ == sq0 + select(q0.take(k as int), mode, nodes, Route::Move),
            decreases q0.len() - k,
        {
            let ghost rest = q0.skip(k as int);
            proof {
                assert forall|a: int, b: int| 0 <= a < b < rest.len() implies (#[trigger] rest[a]).msg_count < (#[trigger] rest[b]).msg_count by {
                    assert(rest[a] == q0[a + k] && rest[b] == q0[b + k]);
                }
                lemma_count_map(rest);
                assert(rest[0] == q0[k as int]);
                lemma_count_map_drop_first(rest);
                assert(rest.drop_first() =~= q0.skip(k + 1));
                assert(ks@[k as int] == q0[k as int].msg_count);
            }
            let key = ks[k];
            match pending.remove(&key) {
                None => {
                    assert(false);
                },
                Some(m) => {
                    let ghost mv = m;
                    assert(mv == q0[k as int]);
                    assert(q0.take(k + 1).drop_last() =~= q0.take(k as int));
                    assert(q0.take(k + 1).last() == mv);
                    match find_node_index(&self.sync_nodes, m.nodeid, m.pid) {
                        None => {},
                        Some(i) => {
                            assert(nodes[i as int] == self.sync_nodes@[i as int]@);
                            let synced = self.sync_nodes[i].synced;
                            if self.mode == DfsmMode::Synced && synced {
                                deliver.push(m);
                            } else if self.mode == DfsmMode::Update && synced {
                                self.sync_queue.push_back(m);
                                assert(self.sync_queue@ =~= sq0 + select(q0.take(k + 1), mode, nodes, Route::Move));
                            } else {
                                let ghost kept = self.queued@;
                                self.msg_queue.insert(m.msg_count, m);
                                self.queued = Ghost(kept.push(mv));
                                assert(kept.push(mv).drop_last() =~= kept);
                            }
                        },
                    }
                },
            }
            k = k + 1;
        }
        assert(q0.take(k as int) =~= q0);
        proof {
            lemma_select_sorted(q0, mode, nodes, Route::Keep);
            lemma_select_from(q0, mode, nodes, Route::Keep);
        }
        deliver
    }

    /// Hands out the messages that waited for the end of synchronization, in order, and
    /// empties that queue.
    pub fn take_sync_queue(&mut self) -> (r: Vec<QueuedMessage<M>>)
        requires
            old(self).wf(),
        ensures
            final(self).wf(),
            r@ == old(self)@.sync_queue,
            final(self)@ == (DfsmCoreView { sync_queue: Seq::empty(), ..old(self)@ }),
    {
        let mut out: Vec<QueuedMessage<M>> = Vec::new();
        let ghost sq0 = self.sync_queue@;
        while self.sync_queue.len() > 0
            invariant
                out@ + self.sync_queue@ == sq0,
                self@ == (DfsmCoreView { sync_queue: self@.sync_queue, ..old(self)@ }),
                self.wf(),
            decreases self.sync_queue@.len(),
        {
            let ghost before = self.sync_queue@;
            match self.sync_queue.pop_front() {
                Some(m) => {
                    let ghost o = out@;
                    out.push(m);
                    assert(out@ + self.sync_queue@ =~= o + before);
                },
                None => {},
            }
        }
        assert(out@ + self.sync_queue@ =~= out@);
        assert(self.sync_queue@ =~= Seq::<QueuedMessage<M>>::empty());
        out
    }

    /// Records the state a member sent during synchronization. A state from a non-member,
    /// or a second one from a member, makes the state machine leave.
    pub fn process_state(&mut self, nodeid: u32, pid: u32, state: Vec<u8>) -> (r: StateOutcome)
        requires
            old(self).wf(),
        ensures
            final(self).wf(),
            ({
                let nodes = old(self)@.sync_nodes;
                let i = find_node(nodes, nodeid, pid);
                if i < 0 {
                    r == StateOutcome::NonMember && final(self)@ == (DfsmCoreView {
                        mode: transition(old(self)@.mode, DfsmMode::Leave),
                        ..old(self)@
                    })
                } else if nodes[i].state is Some {
                    r == StateOutcome::Duplicate && final(self)@ == (DfsmCoreView {
                        mode: transition(old(self)@.mode, DfsmMode::Leave),
                        ..old(self)@
                    })
                } else {
                    let n = nodes.update(i, NodeSyncView { state: Some(state@), ..nodes[i] });
                    final(self)@ == (DfsmCoreView { sync_nodes: n, ..old(self)@ }) && (r == (if all_states(n) {
                        StateOutcome::AllReceived
                    } else {
                        StateOutcome::Stored
                    }))
                }
            }),
    {
        let i = match find_node_index(&self.sync_nodes, nodeid, pid) {
            None => {
                self.set_mode(DfsmMode::Leave);
                return StateOutcome::NonMember;
            },
            Some(i) => i,
        };
        let ghost nodes = node_views(self.sync_nodes@);
        assert(nodes[i as int] == self.sync_nodes@[i as int]@);
        if self.sync_nodes[i].state.is_some() {
            self.set_mode(DfsmMode::Leave);
            return StateOutcome::Duplicate;
        }
        let ghost sv = state@;
        let mut n = self.sync_nodes.remove(i);
        n.state = Some(state);
        self.sync_nodes.insert(i, n);
        let ghost nn = nodes.update(i as int, NodeSyncView { state: Some(sv), ..nodes[i as int] });
        assert(node_views(self.sync_nodes@) =~= nn);
        let mut all = true;
        let mut k: usize = 0;
        while k < self.sync_nodes.len()
            invariant
                k <= self.sync_nodes@.len(),
                nn == node_views(self.sync_nodes@),
                all == (forall|x: int| 0 <= x < k ==> (#[trigger] nn[x]).state is Some),
            decreases self.sync_nodes@.len() - k,
        {
            assert(nn[k as int] == self.sync_nodes@[k as int]@);
            if self.sync_nodes[k].state.is_none() {
                all = false;
            }
            k = k + 1;
        }
        if all {
            StateOutcome::AllReceived
        } else {
            StateOutcome::Stored
        }
    }

    /// Finishes synchronization once the application has processed all states: in sync
    /// (`Some(true)`) our node is marked in sync and the mode becomes synced; out of sync
    /// (`Some(false)`) the mode becomes update; in both cases the queued messages are
    /// delivered as far as the mode allows. A failure (`None`) is an error.
    pub fn state_sync_done(&mut self, outcome: Option<bool>) -> (r: Vec<QueuedMessage<M>>)
        requires
            old(self).wf(),
        ensures
            final(self).wf(),
            ({
                let v = old(self)@;
                match outcome {
                    None => r@ == Seq::<QueuedMessage<M>>::empty() && final(self)@ == (DfsmCoreView {
                        mode: transition(v.mode, DfsmMode::Error),
                        ..v
                    }),
                    Some(synced) => {
                        let i = find_node(v.sync_nodes, v.nodeid, v.pid);
                        let nodes = if synced && i >= 0 {
                            v.sync_nodes.update(i, NodeSyncView { synced: true, ..v.sync_nodes[i] })
                        } else {
                            v.sync_nodes
                        };
                        let mode = transition(v.mode, if synced { DfsmMode::Synced } else { DfsmMode::Update });
                        r@ == select(v.msg_queue, mode, nodes, Route::Deliver) && final(self)@ == (DfsmCoreView {
                            mode,
                            sync_nodes: nodes,
                            msg_queue: select(v.msg_queue, mode, nodes, Route::Keep),
                            sync_queue: v.sync_queue + select(v.msg_queue, mode, nodes, Route::Move),
                            ..v
                        })
                    },
                }
            }),
    {
        match outcome {
            None => {
                self.set_mode(DfsmMode::Error);
                Vec::new()
            },
            Some(synced) => {
                if synced {
                    match find_node_index(&self.sync_nodes, self.nodeid, self.pid) {
                        Some(i) => {
                            let ghost nodes = node_views(self.sync_nodes@);
                            assert(nodes[i as int] == self.sync_nodes@[i as int]@);
                            let mut n = self.sync_nodes.remove(i);
                            n.synced = true;
                            self.sync_nodes.insert(i, n);
                            assert(node_views(self.sync_nodes@) =~= nodes.update(
                                i as int,
                                NodeSyncView { synced: true, ..nodes[i as int] },
                            ));
                        },
                        None => {},
                    }
                    self.set_mode(DfsmMode::Synced);
                } else {
                    self.set_mode(DfsmMode::Update);
                }
                self.deliver_message_queue()
            },
        }
    }

    /// Forgets the saved checksum: its id becomes the request counter and its epoch zero.
    pub fn invalidate_checksum(&mut self)
        ensures
            final(self)@ == (DfsmCoreView {
                checksum_id: old(self)@.checksum_counter,
                checksum_epoch: SyncEpoch { epoch: 0, time: 0, nodeid: 0, pid: 0 },
                ..old(self)@
            }),
            old(self).wf() ==> final(self).wf(),
    {
        self.checksum_id = self.checksum_counter;
        self.checksum_epoch = SyncEpoch { epoch: 0, time: 0, nodeid: 0, pid: 0 };
    }

    /// First part of a membership change: the checksum is forgotten, a new epoch begins
    /// (next local epoch number, time `now`, our node and process), the lowest member id
    /// becomes the leader's, the members start unsynchronized without state, and the queue
    /// waiting for the end of synchronization is emptied. Returns the previous members'
    /// states, for the application to release.
    pub fn begin_membership_change(&mut self, members: &Vec<MemberInfo>, now: u32) -> (r: Vec<NodeSyncInfo>)
        requires
            old(self).wf(),
            old(self)@.local_epoch_counter < u32::MAX,
        ensures
            final(self).wf(),
            node_views(r@) == old(self)@.sync_nodes,
            final(self)@ == (DfsmCoreView {
                checksum_id: old(self)@.checksum_counter,
                checksum_epoch: SyncEpoch { epoch: 0, time: 0, nodeid: 0, pid: 0 },
                local_epoch_counter: (old(self)@.local_epoch_counter + 1) as u32,
                sync_epoch: SyncEpoch {
                    epoch: (old(self)@.local_epoch_counter + 1) as u32,
                    time: now,
                    nodeid: old(self)@.nodeid,
                    pid: old(self)@.pid,
                },
                lowest_nodeid: lowest_id(members@),
                sync_nodes: fresh_nodes(members@),
                sync_queue: Seq::empty(),
                ..old(self)@
            }),
    {
        self.invalidate_checksum();
        self.local_epoch_counter = self.local_epoch_counter + 1;
        self.sync_epoch = SyncEpoch { epoch: self.local_epoch_counter, time: now, nodeid: self.nodeid, pid: self.pid };
        let mut lowest: u32 = 0;
        let mut i: usize = 0;
        while i < members.len()
            invariant
                i <= members@.len(),
                lowest == lowest_id(members@.take(i as int)),
            decreases members@.len() - i,
        {
            assert(members@.take(i + 1).drop_last() =~= members@.take(i as int));
            assert(members@.take(i + 1).last() == members@[i as int]);
            if i == 0 || members[i].node_id < lowest {
                lowest = members[i].node_id;
            }
            i = i + 1;
        }
        assert(members@.take(i as int) =~= members@);
        self.lowest_nodeid = lowest;
        let mut fresh: Vec<NodeSyncInfo> = Vec::new();
        let mut k: usize = 0;
        while k < members.len()
            invariant
                k <= members@.len(),
                node_views(fresh@) == fresh_nodes(members@).take(k as int),
            decreases members@.len() - k,
        {
            let ghost prev = node_views(fresh@);
            let item = NodeSyncInfo { node_id: members[k].node_id, pid: members[k].pid, state: None, synced: false };
            let ghost iv = item@;
            fresh.push(item);
            assert(node_views(fresh@) =~= prev.push(iv));
            assert(iv == fresh_nodes(members@)[k as int]);
            assert(fresh_nodes(members@).take(k + 1) =~= fresh_nodes(members@).take(k as int).push(iv));
            k = k + 1;
        }
        assert(fresh_nodes(members@).take(k as int) =~= fresh_nodes(members@));
        let mut old_nodes = fresh;
        std::mem::swap(&mut old_nodes, &mut self.sync_nodes);
        self.sync_queue.clear();
        old_nodes
    }

    /// Second part of a membership change, for a group of `n_members` members: alone, the
    /// node is in sync at once (the first member's entry marked so) and then the queued
    /// messages are delivered as far as the mode allows; with others, synchronization starts, and the
    /// leader is told to send the start of synchronization and its state.
    pub fn complete_membership_change(&mut self, n_members: usize) -> (r: MembershipActions<M>)
        requires
            old(self).wf(),
        ensures
            final(self).wf(),
            ({
                let v = old(self)@;
                if n_members == 1 {
                    let nodes = if v.sync_nodes.len() > 0 {
                        v.sync_nodes.update(0, NodeSyncView { synced: true, ..v.sync_nodes[0] })
                    } else {
                        v.sync_nodes
                    };
                    let mode = transition(v.mode, DfsmMode::Synced);
                    !r.start_sync && r.deliver@ == select(v.msg_queue, mode, nodes, Route::Deliver)
                        && final(self)@ == (DfsmCoreView {
                        mode,
                        sync_nodes: nodes,
                        msg_queue: select(v.msg_queue, mode, nodes, Route::Keep),
                        sync_queue: v.sync_queue + select(v.msg_queue, mode, nodes, Route::Move),
                        ..v
                    })
                } else {
                    r.start_sync == leads(v) && r.deliver@ == Seq::<QueuedMessage<M>>::empty() && final(self)@
                        == (DfsmCoreView { mode: transition(v.mode, DfsmMode::StartSync), ..v })
                }
            }),
    {
        if n_members == 1 {
            self.set_mode(DfsmMode::Synced);
            if self.sync_nodes.len() > 0 {
                let ghost nodes = node_views(self.sync_nodes@);
                let mut n = self.sync_nodes.remove(0);
                n.synced = true;
                self.sync_nodes.insert(0, n);
                assert(node_views(self.sync_nodes@) =~= nodes.update(0, NodeSyncView { synced: true, ..nodes[0] }));
            }
            let deliver = self.deliver_message_queue();
            MembershipActions { deliver, start_sync: false }
        } else {
            self.set_mode(DfsmMode::StartSync);
            let start_sync = self.is_leader();
            MembershipActions { deliver: Vec::new(), start_sync }
        }
    }

    /// An application message arrives: when synced it is handed back for delivery now,
    /// otherwise it is queued.
    pub fn handle_normal_message(&mut self, nodeid: u32, pid: u32, msg_count: u64, timestamp: u32, message: M) -> (r:
        Option<QueuedMessage<M>>)
        requires
            old(self).wf(),
        ensures
            final(self).wf(),
            ({
                let qm = QueuedMessage { nodeid, pid, msg_count, message, timestamp: timestamp as u64 };
                if old(self)@.mode == DfsmMode::Synced {
                    r == Some(qm) && final(self)@ == old(self)@
                } else if node_synced(old(self)@.sync_nodes, nodeid, pid) && old(self)@.mode == DfsmMode::Update {
                    r is None && final(self)@ == (DfsmCoreView {
                        sync_queue: make_room(old(self)@.sync_queue).push(qm),
                        ..old(self)@
                    })
                } else {
                    r is None && final(self)@ == (DfsmCoreView {
                        msg_queue: count_insert(make_room(old(self)@.msg_queue), qm),
                        ..old(self)@
                    })
                }
            }),
    {
        if self.mode == DfsmMode::Synced {
            Some(QueuedMessage { nodeid, pid, msg_count, message, timestamp: timestamp as u64 })
        } else {
            self.queue_message(nodeid, pid, msg_count, message, timestamp as u64);
            None
        }
    }

    /// The leader starts synchronization: its epoch is adopted; we answer with our state
    /// unless we are the sender.
    pub fn handle_sync_start(&mut self, nodeid: u32, new_epoch: SyncEpoch) -> (send_state: bool)
        ensures
            send_state == (nodeid != old(self)@.nodeid),
            final(self)@ == (DfsmCoreView { sync_epoch: new_epoch, ..old(self)@ }),
            old(self).wf() ==> final(self).wf(),
    {
        self.sync_epoch = new_epoch;
        nodeid != self.nodeid
    }

    /// The leader has sent all updates: the waiting messages are handed out for delivery
    /// and the mode becomes synced.
    pub fn handle_update_complete(&mut self) -> (r: Vec<QueuedMessage<M>>)
        requires
            old(self).wf(),
        ensures
            final(self).wf(),
            r@ == old(self)@.sync_queue,
            final(self)@ == (DfsmCoreView {
                sync_queue: Seq::empty(),
                mode: transition(old(self)@.mode, DfsmMode::Synced),
                ..old(self)@
            }),
    {
        let r = self.take_sync_queue();
        self.set_mode(DfsmMode::Synced);
        r
    }

    /// Count of the next message we send.
    pub fn next_msg_count(&mut self) -> (r: u64)
        requires
            old(self)@.msg_counter < u64::MAX,
        ensures
            r == old(self)@.msg_counter + 1,
            final(self)@ == (DfsmCoreView { msg_counter: r, ..old(self)@ }),
            old(self).wf() ==> final(self).wf(),
    {
        self.msg_counter = self.msg_counter + 1;
        self.msg_counter
    }

    /// Count for a message to broadcast: only when synced; otherwise the message is dropped.
    pub fn broadcast_count(&mut self) -> (r: Option<u64>)
        requires
            old(self)@.mode == DfsmMode::Synced ==> old(self)@.msg_counter < u64::MAX,
        ensures
            old(self)@.mode == DfsmMode::Synced ==> r == Some((old(self)@.msg_counter + 1) as u64) && final(self)@
                == (DfsmCoreView { msg_counter: (old(self)@.msg_counter + 1) as u64, ..old(self)@ }),
            old(self)@.mode != DfsmMode::Synced ==> r is None && final(self)@ == old(self)@,
            old(self).wf() ==> final(self).wf(),
    {
        if self.mode == DfsmMode::Synced {
            Some(self.next_msg_count())
        } else {
            None
        }
    }

    /// Id of a verification request to send: only the leader, when synced and when the
    /// previous verification has been answered, takes the next id.
    pub fn verify_request(&mut self) -> (r: Option<u64>)
        requires
            leads(old(self)@) && old(self)@.mode == DfsmMode::Synced && old(self)@.checksum_counter
                == old(self)@.checksum_id ==> old(self)@.checksum_counter < u64::MAX,
        ensures
            old(self).wf() ==> final(self).wf(),
            if leads(old(self)@) && old(self)@.mode == DfsmMode::Synced && old(self)@.checksum_counter
                == old(self)@.checksum_id {
                r == Some((old(self)@.checksum_counter + 1) as u64) && final(self)@ == (DfsmCoreView {
                    checksum_counter: (old(self)@.checksum_counter + 1) as u64,
                    ..old(self)@
                })
            } else {
                r is None && final(self)@ == old(self)@
            },
    {
        if !self.is_leader() {
            return None;
        }
        if self.mode != DfsmMode::Synced {
            return None;
        }
        if self.checksum_counter != self.checksum_id {
            return None;
        }
        self.checksum_counter = self.checksum_counter + 1;
        Some(self.checksum_counter)
    }

    /// A verification request arrives with the checksum the application computed: the
    /// checksum, the request's epoch and id are saved; the answer carries our current epoch.
    pub fn handle_verify_request(&mut self, message_epoch: SyncEpoch, csum_id: u64, checksum: [u8; 32]) -> (r:
        SyncEpoch)
        ensures
            r == old(self)@.sync_epoch,
            final(self)@ == (DfsmCoreView {
                checksum: checksum@,
                checksum_epoch: message_epoch,
                checksum_id: csum_id,
                ..old(self)@
            }),
            old(self).wf() ==> final(self).wf(),
    {
        self.checksum = checksum;
        self.checksum_epoch = message_epoch;
        self.checksum_id = csum_id;
        self.sync_epoch
    }

    /// A verification answer arrives: when it answers our saved checksum (same id and
    /// epoch) and its checksum differs, the data diverged and the state machine leaves.
    /// Returns whether the data agreed (or the answer was not for our checksum).
    pub fn handle_verify(&mut self, message_epoch: SyncEpoch, csum_id: u64, received: &[u8; 32]) -> (ok: bool)
        ensures
            old(self).wf() ==> final(self).wf(),
            ({
                let v = old(self)@;
                if v.checksum_id == csum_id && v.checksum_epoch == message_epoch && v.checksum != received@ {
                    !ok && final(self)@ == (DfsmCoreView { mode: transition(v.mode, DfsmMode::Leave), ..v })
                } else {
                    ok && final(self)@ == v
                }
            }),
    {
        if self.checksum_id == csum_id && self.checksum_epoch == message_epoch {
            if !crate::memdb::index::digest_eq(&self.checksum, received) {
                self.set_mode(DfsmMode::Leave);
                return false;
            }
        }
        true
    }

    /// Whether a protocol message is handled: application messages and the start of
    /// synchronization always; the others only when they carry the current epoch.
    pub fn accepts_message<N: Message>(&self, message: &DfsmMessage<N>) -> (r: bool)
        ensures
            r == (match message {
                DfsmMessage::Normal { .. } => true,
                DfsmMessage::SyncStart { .. } => true,
                DfsmMessage::State { sync_epoch, .. } => *sync_epoch == self@.sync_epoch,
                DfsmMessage::Update { sync_epoch, .. } => *sync_epoch == self@.sync_epoch,
                DfsmMessage::UpdateComplete { sync_epoch } => *sync_epoch == self@.sync_epoch,
                DfsmMessage::VerifyRequest { sync_epoch, .. } => *sync_epoch == self@.sync_epoch,
                DfsmMessage::Verify { sync_epoch, .. } => *sync_epoch == self@.sync_epoch,
            }),
    {
        match message {
            DfsmMessage::Normal { .. } => true,
            DfsmMessage::SyncStart { .. } => true,
            DfsmMessage::State { sync_epoch, .. } => *sync_epoch == self.sync_epoch,
            DfsmMessage::Update { sync_epoch, .. } => *sync_epoch == self.sync_epoch,
            DfsmMessage::UpdateComplete { sync_epoch } => *sync_epoch == self.sync_epoch,
            DfsmMessage::VerifyRequest { sync_epoch, .. } => *sync_epoch == self.sync_epoch,
            DfsmMessage::Verify { sync_epoch, .. } => *sync_epoch == self.sync_epoch,
        }
    }
}

/// From an error mode, asking for another error mode never lowers the code: a lower error
/// mode is refused.
pub proof fn lemma_error_modes_only_rise(old: DfsmMode, new: DfsmMode)
    requires
        mode_code(old) >= 128,
        mode_code(new) >= 128,
    ensures
        mode_code(transition(old, new)) >= mode_code(old),
        mode_code(new) < mode_code(old) ==> transition(old, new) == old,
{
}

/// Outside error modes every requested mode is taken; asking for the current mode
/// changes nothing.
pub proof fn lemma_transition_taken(old: DfsmMode, new: DfsmMode)
    ensures
        mode_code(old) < 128 ==> transition(old, new) == new,
        transition(old, old) == old,
{
}

/// The leader is the member with the lowest node id.
pub proof fn lemma_lowest_is_member_minimum(members: Seq<MemberInfo>)
    requires
        members.len() > 0,
    ensures
        exists|i: int| 0 <= i < members.len() && members[i].node_id == lowest_id(members),
        forall|i: int| 0 <= i < members.len() ==> lowest_id(members) <= (#[trigger] members[i]).node_id,
    decreases members.len(),
{
    if members.len() == 1 {
        assert(members[0].node_id == lowest_id(members));
    } else {
        let d = members.drop_last();
        lemma_lowest_is_member_minimum(d);
        let k = choose|i: int| 0 <= i < d.len() && d[i].node_id == lowest_id(d);
        assert forall|i: int| 0 <= i < members.len() implies lowest_id(members) <= (#[trigger] members[i]).node_id by {
            if i < members.len() - 1 {
                assert(members[i] == d[i]);
            }
        }
        if members.last().node_id < lowest_id(d) {
            assert(members[members.len() - 1].node_id == lowest_id(members));
        } else {
            assert(members[k] == d[k]);
        }
    }
}

/// Storing a message keeps at most the queue's bound: a full queue loses its oldest
/// message first.
pub proof fn lemma_queue_bounded<M>(q: Seq<QueuedMessage<M>>, m: QueuedMessage<M>)
    requires
        q.len() <= MAX_QUEUE_LEN,
    ensures
        count_insert(make_room(q), m).len() <= MAX_QUEUE_LEN,
        make_room(q).push(m).len() <= MAX_QUEUE_LEN,
{
    lemma_count_insert_len(make_room(q), m);
}

proof fn lemma_count_insert_len<M>(q: Seq<QueuedMessage<M>>, m: QueuedMessage<M>)
    ensures
        count_insert(q, m).len() <= q.len() + 1,
    decreases q.len(),
{
    if q.len() > 0 && q.last().msg_count != m.msg_count && m.msg_count < q.last().msg_count {
        lemma_count_insert_len(q.drop_last(), m);
    }
}

/// Storing under a count in an ordered queue: the queue stays ordered, holds the new
/// message, and otherwise holds exactly the messages it held with other counts.
proof fn lemma_count_insert_contents<M>(q: Seq<QueuedMessage<M>>, m: QueuedMessage<M>)
    requires
        counts_sorted(q),
    ensures
        counts_sorted(count_insert(q, m)),
        count_insert(q, m).contains(m),
        forall|x: QueuedMessage<M>| #[trigger] count_insert(q, m).contains(x) ==> x == m || (q.contains(x) && x.msg_count != m.msg_count),
        forall|x: QueuedMessage<M>| q.contains(x) && x.msg_count != m.msg_count ==> #[trigger] count_insert(q, m).contains(x),
    decreases q.len(),
{
    let r = count_insert(q, m);
    if q.len() == 0 {
        assert(r[0] == m);
    } else {
        let d = q.drop_last();
        let l = q.last();
        assert(counts_sorted(d)) by {
            assert forall|a: int, b: int| 0 <= a < b < d.len() implies (#[trigger] d[a]).msg_count < (#[trigger] d[b]).msg_count by {
                assert(d[a] == q[a] && d[b] == q[b]);
            }
        }
        assert forall|x: QueuedMessage<M>| #[trigger] d.contains(x) implies x.msg_count < l.msg_count && q.contains(x) by {
            let k = choose|k: int| 0 <= k < d.len() && d[k] == x;
            assert(q[k] == x);
            assert(q[q.len() - 1] == l);
        }
        assert forall|x: QueuedMessage<M>| #[trigger] q.contains(x) implies x == l || d.contains(x) by {
            let k = choose|k: int| 0 <= k < q.len() && q[k] == x;
            if k < q.len() - 1 {
                assert(d[k] == x);
            }
        }
        if l.msg_count == m.msg_count {
            assert(r == d.push(m));
            assert(r[d.len() as int] == m);
            assert forall|x: QueuedMessage<M>| #[trigger] r.contains(x) implies x == m || (q.contains(x) && x.msg_count != m.msg_count) by {
                let k = choose|k: int| 0 <= k < r.len() && r[k] == x;
                if k < d.len() {
                    assert(d[k] == x);
                    assert(d.contains(x));
                }
            }
            assert forall|x: QueuedMessage<M>| q.contains(x) && x.msg_count != m.msg_count implies #[trigger] r.contains(x) by {
                assert(d.contains(x));
                let k = choose|k: int| 0 <= k < d.len() && d[k] == x;
                assert(r[k] == x);
            }
            assert forall|a: int, b: int| 0 <= a < b < r.len() implies (#[trigger] r[a]).msg_count < (#[trigger] r[b]).msg_count by {
                assert(r[a] == d[a]);
                assert(d.contains(d[a]));
                if b < d.len() {
                    assert(r[b] == d[b]);
                }
            }
        } else if m.msg_count < l.msg_count {
            lemma_count_insert_contents(d, m);
            let r0 = count_insert(d, m);
            assert(r == r0.push(l));
            let k0 = choose|k: int| 0 <= k < r0.len() && r0[k] == m;
            assert(r[k0] == m);
            assert forall|x: QueuedMessage<M>| #[trigger] r.contains(x) implies x == m || (q.contains(x) && x.msg_count != m.msg_count) by {
                let k = choose|k: int| 0 <= k < r.len() && r[k] == x;
                if k < r0.len() {
                    assert(r0[k] == x);
                    assert(r0.contains(x));
                } else {
                    assert(x == l);
                    assert(q[q.len() - 1] == l);
                }
            }
            assert forall|x: QueuedMessage<M>| q.contains(x) && x.msg_count != m.msg_count implies #[trigger] r.contains(x) by {
                if x == l {
                    assert(r[r0.len() as int] == l);
                } else {
                    assert(d.contains(x));
                    assert(r0.contains(x));
                    let k = choose|k: int| 0 <= k < r0.len() && r0[k] == x;
                    assert(r[k] == x);
                }
            }
            assert forall|a: int, b: int| 0 <= a < b < r.len() implies (#[trigger] r[a]).msg_count < (#[trigger] r[b]).msg_count by {
                assert(r[a] == r0[a]);
                assert(r0.contains(r0[a]));
                if b < r0.len() {
                    assert(r[b] == r0[b]);
                } else {
                    assert(r[b] == l);
                }
            }
        } else {
            assert(r == q.push(m));
            assert(r[q.len() as int] == m);
            assert forall|x: QueuedMessage<M>| #[trigger] r.contains(x) implies x == m || (q.contains(x) && x.msg_count != m.msg_count) by {
                let k = choose|k: int| 0 <= k < r.len() && r[k] == x;
                if k < q.len() {
                    assert(q[k] == x);
                    assert(q.contains(x));
                    assert(x == l || d.contains(x));
                }
            }
            assert forall|x: QueuedMessage<M>| q.contains(x) && x.msg_count != m.msg_count implies #[trigger] r.contains(x) by {
                let k = choose|k: int| 0 <= k < q.len() && q[k] == x;
                assert(r[k] == x);
            }
            assert forall|a: int, b: int| 0 <= a < b < r.len() implies (#[trigger] r[a]).msg_count < (#[trigger] r[b]).msg_count by {
                assert(r[a] == q[a]);
                assert(q.contains(q[a]));
                assert(q[a] == l || d.contains(q[a]));
                if b < q.len() {
                    assert(r[b] == q[b]);
                }
            }
        }
    }
}

/// Queuing a message by its count: the queue stays ordered and within its bound, holds
/// the new message, and otherwise holds exactly the messages it held with other counts,
/// less its oldest (least count) message when it was full.
pub proof fn lemma_msg_queue_law<M>(q: Seq<QueuedMessage<M>>, m: QueuedMessage<M>)
    requires
        counts_sorted(q),
        q.len() <= MAX_QUEUE_LEN,
    ensures
        counts_sorted(count_insert(make_room(q), m)),
        count_insert(make_room(q), m).len() <= MAX_QUEUE_LEN,
        count_insert(make_room(q), m).contains(m),
        forall|x: QueuedMessage<M>| #[trigger] count_insert(make_room(q), m).contains(x)
            ==> x == m || (make_room(q).contains(x) && x.msg_count != m.msg_count),
        forall|x: QueuedMessage<M>| make_room(q).contains(x) && x.msg_count != m.msg_count
            ==> #[trigger] count_insert(make_room(q), m).contains(x),
        make_room(q) == (if q.len() >= MAX_QUEUE_LEN { q.drop_first() } else { q }),
{
    lemma_queue_bounded(q, m);
    if q.len() >= MAX_QUEUE_LEN {
        lemma_sorted_drop_first(q);
    }
    lemma_count_insert_contents(make_room(q), m);
}

/// Queuing a message for the end of synchronization: it goes to the back, and a full
/// queue first loses its oldest message, so a queue within its bound stays within it.
pub proof fn lemma_sync_queue_law<M>(q: Seq<QueuedMessage<M>>, m: QueuedMessage<M>)
    requires
        q.len() <= MAX_QUEUE_LEN,
    ensures
        make_room(q).push(m).len() <= MAX_QUEUE_LEN,
        make_room(q).push(m).last() == m,
        make_room(q).push(m).drop_last() == (if q.len() >= MAX_QUEUE_LEN { q.drop_first() } else { q }),
{
    lemma_queue_bounded(q, m);
}

} // verus!
