//! Every operation on a connection keeps it well formed.

use vstd::prelude::*;
use crate::bytes::{be_bytes, word_at};
use crate::clock::Moment;
use crate::endpoint::Endpoint;
use crate::model::{
    ack_payload, find_seq, held_slot, resend_due, resent, AckEntry, StreamView, UcpState,
};
use crate::packet::{PacketView, CMD_DATA, CMD_SYN, CMD_SYN_ACK};

verus! {

/// `find_seq` gives the first place at or behind `from` that holds `seq`.
pub proof fn lemma_find_seq(q: Seq<PacketView>, from: int, seq: u32)
    requires
        0 <= from <= q.len(),
    ensures
        from <= find_seq(q, from, seq) <= q.len(),
        find_seq(q, from, seq) < q.len() ==> q[find_seq(q, from, seq)].seq == seq,
        forall|j: int| from <= j < find_seq(q, from, seq) ==> (#[trigger] q[j]).seq != seq,
    decreases q.len() - from,
{
    if from < q.len() && q[from].seq != seq {
        lemma_find_seq(q, from + 1, seq);
    }
}

/// `held_slot` gives the first place at or behind `from` that holds `seq`
/// or a higher number.
pub proof fn lemma_held_slot(q: Seq<PacketView>, from: int, seq: u32)
    requires
        0 <= from <= q.len(),
    ensures
        from <= held_slot(q, from, seq) <= q.len(),
        held_slot(q, from, seq) < q.len() ==> q[held_slot(q, from, seq)].seq >= seq,
        forall|j: int| from <= j < held_slot(q, from, seq) ==> (#[trigger] q[j]).seq < seq,
    decreases q.len() - from,
{
    if from < q.len() && q[from].seq < seq {
        lemma_held_slot(q, from + 1, seq);
    }
}

/// A connection on which nothing has happened is well formed.
pub proof fn lemma_fresh_wf(remote_addr: Endpoint, initial_time: Moment)
    ensures
        StreamView::fresh(remote_addr, initial_time).wf(),
{
}

/// A packet under a fresh sequence number keeps the connection well formed
/// when it enters the send queue or the send buffer.
pub proof fn lemma_send_packet_wf(s: StreamView, p: PacketView)
    requires
        s.wf(),
        s.can_number(),
        p.seq == s.seq + 1,
    ensures
        s.numbered().send_packet(p).wf(),
{
    let t = s.numbered().send_packet(p);
    if s.send_queue.len() < s.remote_window {
        assert forall|i: int, j: int| 0 <= i < j < t.send_queue.len() implies (
        #[trigger] t.send_queue[i]).seq != (#[trigger] t.send_queue[j]).seq by {
            if j == s.send_queue.len() {
                assert(s.send_queue[i].seq <= s.seq);
            }
        }
        assert forall|i: int, j: int|
            0 <= i < t.send_queue.len() && 0 <= j < t.send_buffer.len() implies (
        #[trigger] t.send_queue[i]).seq != (#[trigger] t.send_buffer[j]).seq by {
            if i == s.send_queue.len() {
                assert(s.send_buffer[j].seq <= s.seq);
            }
        }
    } else {
        assert forall|i: int, j: int| 0 <= i < j < t.send_buffer.len() implies (
        #[trigger] t.send_buffer[i]).seq != (#[trigger] t.send_buffer[j]).seq by {
            if j == s.send_buffer.len() {
                assert(s.send_buffer[i].seq <= s.seq);
            }
        }
        assert forall|i: int, j: int|
            0 <= i < t.send_queue.len() && 0 <= j < t.send_buffer.len() implies (
        #[trigger] t.send_queue[i]).seq != (#[trigger] t.send_buffer[j]).seq by {
            if j == s.send_buffer.len() {
                assert(s.send_queue[i].seq <= s.seq);
            }
        }
    }
}

/// Sending keeps the connection well formed.
pub proof fn lemma_send_wf(s: StreamView, payload: Seq<u8>, ts: u32)
    requires
        s.wf(),
    ensures
        s.send(payload, ts).wf(),
{
    if s.accepts(payload) {
        lemma_send_packet_wf(s, PacketView { payload, ..s.new_packet(CMD_DATA, ts) });
    }
}

/// An acknowledgment keeps the connection well formed.
pub proof fn lemma_process_ack_wf(s: StreamView, seq: u32, timestamp: u32, ts: u32)
    requires
        s.wf(),
    ensures
        s.process_ack(seq, timestamp, ts).wf(),
{
    lemma_find_seq(s.send_queue, 0, seq);
    let t = s.process_ack(seq, timestamp, ts);
    if s.acks(seq) {
        let k = find_seq(s.send_queue, 0, seq);
        assert forall|i: int| 0 <= i < t.send_queue.len() implies (#[trigger] t.send_queue[i]).seq
            <= t.seq by {
            if i < k {
                assert(t.send_queue[i] == s.send_queue[i]);
            } else {
                assert(t.send_queue[i] == s.send_queue[i + 1]);
            }
        }
        assert forall|i: int, j: int| 0 <= i < j < t.send_queue.len() implies (
        #[trigger] t.send_queue[i]).seq != (#[trigger] t.send_queue[j]).seq by {
            let a = if i < k { i } else { i + 1 };
            let b = if j < k { j } else { j + 1 };
            assert(t.send_queue[i] == s.send_queue[a]);
            assert(t.send_queue[j] == s.send_queue[b]);
        }
        assert forall|i: int, j: int|
            0 <= i < t.send_queue.len() && 0 <= j < t.send_buffer.len() implies (
        #[trigger] t.send_queue[i]).seq != (#[trigger] t.send_buffer[j]).seq by {
            let a = if i < k { i } else { i + 1 };
            assert(t.send_queue[i] == s.send_queue[a]);
        }
    }
}

/// The acknowledgments of a payload keep the connection well formed.
pub proof fn lemma_process_ack_pairs_wf(s: StreamView, payload: Seq<u8>, k: int, ts: u32)
    requires
        s.wf(),
    ensures
        s.process_ack_pairs(payload, k, ts).wf(),
    decreases payload.len() - 8 * k,
{
    if !(k < 0 || 8 * k + 8 > payload.len()) {
        let seq = word_at(payload, 8 * k);
        let timestamp = word_at(payload, 8 * k + 4);
        lemma_process_ack_wf(s, seq, timestamp, ts);
        lemma_process_ack_pairs_wf(s.process_ack(seq, timestamp, ts), payload, k + 1, ts);
    }
}

/// Counting the packets that have become in sequence as ready settles the
/// receiving side.
pub proof fn lemma_absorb_wf(s: StreamView)
    requires
        s.send_side_wf(),
        s.recv_side_wf(false),
    ensures
        s.absorb().wf(),
        s.absorb().recv_ready >= s.recv_ready,
    decreases s.recv_queue.len() - s.recv_ready,
{
    if s.recv_ready < s.recv_queue.len() && s.recv_queue[s.recv_ready as int].seq == s.recv_next {
        let t = StreamView { recv_ready: s.recv_ready + 1, recv_next: s.recv_next + 1, ..s };
        assert forall|i: int| t.recv_ready <= i < t.recv_queue.len() implies t.recv_next <= (
        #[trigger] t.recv_queue[i]).seq && t.recv_queue[i].seq - t.recv_next < t.local_window by {
            assert(s.recv_queue[s.recv_ready as int].seq < s.recv_queue[i].seq);
        }
        assert(t.recv_side_wf(false));
        lemma_absorb_wf(t);
    } else {
        assert forall|i: int| s.recv_ready <= i < s.recv_queue.len() implies s.recv_next != (
        #[trigger] s.recv_queue[i]).seq by {
            if i > s.recv_ready {
                assert(s.recv_queue[s.recv_ready as int].seq < s.recv_queue[i].seq);
            }
        }
    }
}

/// A DATA packet keeps a connection well formed that is past waiting for
/// the answer to its SYN.
pub proof fn lemma_process_data_wf(s: StreamView, p: PacketView)
    requires
        s.wf(),
        s.state == UcpState::ACCEPTING || s.state == UcpState::ESTABLISHED,
    ensures
        s.process_data(p).wf(),
        s.process_data(p).recv_ready >= s.recv_ready,
{
    if p.seq >= s.recv_next && p.seq - s.recv_next < s.local_window {
        lemma_held_slot(s.recv_queue, s.recv_ready as int, p.seq);
        let k = held_slot(s.recv_queue, s.recv_ready as int, p.seq);
        if !(k < s.recv_queue.len() && s.recv_queue[k].seq == p.seq) {
            let t = StreamView {
                recv_queue: s.recv_queue.insert(k, p),
                ack_list: s.ack_list.push(AckEntry { seq: p.seq, timestamp: p.timestamp }),
                ..s
            };
            assert forall|i: int| 0 <= i < t.recv_ready implies (#[trigger] t.recv_queue[i]).seq
                + (t.recv_ready - i) == t.recv_next by {
                assert(t.recv_queue[i] == s.recv_queue[i]);
            }
            assert forall|i: int| t.recv_ready <= i < t.recv_queue.len() implies t.recv_next <= (
            #[trigger] t.recv_queue[i]).seq && t.recv_queue[i].seq - t.recv_next
                < t.local_window by {
                if i < k {
                    assert(t.recv_queue[i] == s.recv_queue[i]);
                } else if i > k {
                    assert(t.recv_queue[i] == s.recv_queue[i - 1]);
                }
            }
            assert forall|i: int, j: int| t.recv_ready <= i < j < t.recv_queue.len() implies (
            #[trigger] t.recv_queue[i]).seq < (#[trigger] t.recv_queue[j]).seq by {
                let a = if i < k { i } else { i - 1 };
                let b = if j < k { j } else { j - 1 };
                if i != k {
                    assert(t.recv_queue[i] == s.recv_queue[a]);
                }
                if j != k {
                    assert(t.recv_queue[j] == s.recv_queue[b]);
                }
                if i == k {
                    assert(s.recv_queue[k].seq <= s.recv_queue[b].seq);
                }
            }
            if t.recv_ready > 0 {
                assert(t.recv_queue[0] == s.recv_queue[0]);
            }
            assert(t.recv_side_wf(false));
            lemma_absorb_wf(t);
        }
    }
}

/// A request to connect keeps the connection well formed.
pub proof fn lemma_connecting_wf(s: StreamView, session_id: u32, ts: u32)
    requires
        s.wf(),
    ensures
        s.connecting(session_id, ts).wf(),
{
    if s.state == UcpState::NONE && s.can_number() {
        let t = StreamView { state: UcpState::CONNECTING, session_id, ..s };
        lemma_send_packet_wf(t, t.new_packet(CMD_SYN, ts));
    }
}

/// A SYN on a connection in its initial state keeps it well formed.
pub proof fn lemma_accepting_wf(s: StreamView, p: PacketView, ts: u32)
    requires
        s.wf(),
        s.state == UcpState::NONE,
    ensures
        s.accepting(p, ts).wf(),
{
    if s.can_number() {
        let t = StreamView {
            state: UcpState::ACCEPTING,
            session_id: p.session_id,
            remote_window: p.window,
            recv_next: (p.seq + 1) as nat,
            ..s
        };
        lemma_send_packet_wf(
            t,
            PacketView {
                payload: be_bytes(p.seq) + be_bytes(p.timestamp),
                ..t.new_packet(CMD_SYN_ACK, ts)
            },
        );
    }
}

/// Whatever arrives, from whomever, a well-formed connection stays well
/// formed.
pub proof fn lemma_process_packet_wf(s: StreamView, p: PacketView, from: Endpoint, ts: u32)
    requires
        s.wf(),
    ensures
        s.process_packet(p, from, ts).wf(),
        s.process_packet(p, from, ts).recv_ready >= s.recv_ready,
{
    if s.remote_addr == from {
        if s.state == UcpState::NONE {
            if p.cmd == CMD_SYN {
                lemma_accepting_wf(s, p, ts);
            }
        } else if s.session_id == p.session_id {
            let t = StreamView { remote_window: p.window, ..s };
            assert(t.wf());
            match t.state {
                UcpState::ACCEPTING => {
                    lemma_process_ack_wf(t, word_at(p.payload, 0), word_at(p.payload, 4), ts);
                    lemma_process_data_wf(StreamView { state: UcpState::ESTABLISHED, ..t }, p);
                },
                UcpState::CONNECTING => {
                    lemma_process_ack_wf(t, word_at(p.payload, 0), word_at(p.payload, 4), ts);
                },
                UcpState::ESTABLISHED => {
                    lemma_process_data_wf(t, p);
                    lemma_process_ack_pairs_wf(t, p.payload, 0, ts);
                    lemma_ack_pairs_keep_ready(t, p.payload, 0, ts);
                },
                UcpState::NONE => {},
            }
        }
    }
}

/// Retransmission keeps the connection well formed.
pub proof fn lemma_retransmit_wf(s: StreamView, from: int, ts: u32)
    requires
        s.wf(),
    ensures
        s.retransmit(from, ts).wf(),
    decreases s.send_queue.len() - from,
{
    if !(from < 0 || from >= s.send_queue.len()) {
        if resend_due(s.send_queue[from], s.rto, ts) {
            let e = resent(s.send_queue[from], ts);
            let t = StreamView { send_queue: s.send_queue.update(from, e), ..s.transmit(e) };
            assert forall|i: int| 0 <= i < t.send_queue.len() implies (
            #[trigger] t.send_queue[i]).seq == s.send_queue[i].seq by {}
            assert(t.wf());
            lemma_retransmit_wf(t, from + 1, ts);
        } else {
            lemma_retransmit_wf(s, from + 1, ts);
        }
    }
}

/// Refilling the send queue keeps the connection well formed.
pub proof fn lemma_replenish_wf(s: StreamView, ts: u32)
    requires
        s.wf(),
    ensures
        s.replenish(ts).wf(),
    decreases s.send_buffer.len(),
{
    if s.send_queue.len() < s.remote_window && s.send_buffer.len() > 0 {
        let e = PacketView { timestamp: ts, ..s.send_buffer[0] };
        let t = StreamView {
            send_queue: s.send_queue.push(e),
            send_buffer: s.send_buffer.drop_first(),
            ..s.transmit(e)
        };
        assert forall|j: int| 0 <= j < t.send_buffer.len() implies #[trigger] t.send_buffer[j]
            == s.send_buffer[j + 1] by {}
        assert forall|i: int| 0 <= i < t.send_queue.len() implies (#[trigger] t.send_queue[i]).seq
            <= t.seq by {
            if i == s.send_queue.len() {
                assert(s.send_buffer[0].seq <= s.seq);
            }
        }
        assert forall|j: int| 0 <= j < t.send_buffer.len() implies (#[trigger] t.send_buffer[j]).seq
            <= t.seq by {
            assert(s.send_buffer[j + 1].seq <= s.seq);
        }
        assert forall|i: int, j: int| 0 <= i < j < t.send_queue.len() implies (
        #[trigger] t.send_queue[i]).seq != (#[trigger] t.send_queue[j]).seq by {
            if j == s.send_queue.len() {
                assert(s.send_queue[i].seq != s.send_buffer[0].seq);
            }
        }
        assert forall|i: int, j: int| 0 <= i < j < t.send_buffer.len() implies (
        #[trigger] t.send_buffer[i]).seq != (#[trigger] t.send_buffer[j]).seq by {
            assert(s.send_buffer[i + 1].seq != s.send_buffer[j + 1].seq);
        }
        assert forall|i: int, j: int|
            0 <= i < t.send_queue.len() && 0 <= j < t.send_buffer.len() implies (
        #[trigger] t.send_queue[i]).seq != (#[trigger] t.send_buffer[j]).seq by {
            if i == s.send_queue.len() {
                assert(s.send_buffer[0].seq != s.send_buffer[j + 1].seq);
            } else {
                assert(s.send_queue[i].seq != s.send_buffer[j + 1].seq);
            }
        }
        assert(t.wf());
        lemma_replenish_wf(t, ts);
    }
}

/// Sending the acknowledgments owed keeps the connection well formed.
pub proof fn lemma_flush_acks_wf(s: StreamView, ts: u32)
    requires
        s.wf(),
    ensures
        s.flush_acks(ts).wf(),
    decreases s.ack_list.len(),
{
    if s.ack_list.len() > 0 {
        let p = PacketView {
            payload: ack_payload(s.ack_list.take(s.ack_batch())),
            ..s.new_ack_packet(ts)
        };
        let t = StreamView { ack_list: s.ack_list.skip(s.ack_batch()), ..s.transmit(p) };
        lemma_flush_acks_wf(t, ts);
    }
}

/// A tick keeps the connection well formed.
pub proof fn lemma_update_wf(s: StreamView, ts: u32)
    requires
        s.wf(),
    ensures
        s.update(ts).wf(),
{
    lemma_retransmit_wf(s, 0, ts);
    lemma_replenish_wf(s.retransmit(0, ts), ts);
    lemma_flush_acks_wf(s.retransmit(0, ts).replenish(ts), ts);
}

/// Taking readable bytes keeps the connection well formed.
pub proof fn lemma_recv_wf(s: StreamView, capacity: nat)
    requires
        s.wf(),
    ensures
        s.recv(capacity).wf(),
    decreases s.recv_ready,
{
    if !(capacity == 0 || s.recv_ready == 0 || s.recv_queue.len() == 0 || s.recv_offset
        > s.recv_queue[0].payload.len()) {
        if s.recv_queue[0].payload.len() - s.recv_offset <= capacity {
            let t = StreamView {
                recv_queue: s.recv_queue.drop_first(),
                recv_ready: (s.recv_ready - 1) as nat,
                recv_offset: 0,
                ..s
            };
            assert forall|i: int| 0 <= i < t.recv_queue.len() implies #[trigger] t.recv_queue[i]
                == s.recv_queue[i + 1] by {}
            assert forall|i: int| 0 <= i < t.recv_ready implies (#[trigger] t.recv_queue[i]).seq
                + (t.recv_ready - i) == t.recv_next by {
                assert(s.recv_queue[i + 1].seq + (s.recv_ready - (i + 1)) == s.recv_next);
            }
            assert forall|i: int| t.recv_ready <= i < t.recv_queue.len() implies t.recv_next <= (
            #[trigger] t.recv_queue[i]).seq && t.recv_queue[i].seq - t.recv_next < t.local_window
                && t.recv_next != t.recv_queue[i].seq by {
                assert(s.recv_next <= s.recv_queue[i + 1].seq);
            }
            assert forall|i: int, j: int| t.recv_ready <= i < j < t.recv_queue.len() implies (
            #[trigger] t.recv_queue[i]).seq < (#[trigger] t.recv_queue[j]).seq by {
                assert(s.recv_queue[i + 1].seq < s.recv_queue[j + 1].seq);
            }
            assert(t.wf());
            lemma_recv_wf(t, (capacity - (s.recv_queue[0].payload.len() - s.recv_offset)) as nat);
        }
    }
}

/// Counting packets as ready leaves the peer's address as it was.
pub proof fn lemma_absorb_keeps_addr(s: StreamView)
    ensures
        s.absorb().remote_addr == s.remote_addr,
    decreases s.recv_queue.len() - s.recv_ready,
{
    if s.recv_ready < s.recv_queue.len() && s.recv_queue[s.recv_ready as int].seq == s.recv_next {
        lemma_absorb_keeps_addr(
            StreamView { recv_ready: s.recv_ready + 1, recv_next: s.recv_next + 1, ..s },
        );
    }
}

/// Acknowledgments leave the peer's address as it was.
pub proof fn lemma_ack_pairs_keep_addr(s: StreamView, payload: Seq<u8>, k: int, ts: u32)
    ensures
        s.process_ack_pairs(payload, k, ts).remote_addr == s.remote_addr,
    decreases payload.len() - 8 * k,
{
    if !(k < 0 || 8 * k + 8 > payload.len()) {
        lemma_ack_pairs_keep_addr(
            s.process_ack(word_at(payload, 8 * k), word_at(payload, 8 * k + 4), ts),
            payload,
            k + 1,
            ts,
        );
    }
}

/// Whatever arrives, the peer's address stays as it was.
pub proof fn lemma_process_packet_keeps_addr(s: StreamView, p: PacketView, from: Endpoint, ts: u32)
    ensures
        s.process_packet(p, from, ts).remote_addr == s.remote_addr,
{
    let t = StreamView { remote_window: p.window, ..s };
    let e = StreamView { state: UcpState::ESTABLISHED, ..t };
    lemma_ack_pairs_keep_addr(t, p.payload, 0, ts);
    if p.seq >= s.recv_next && p.seq - s.recv_next < s.local_window {
        let k = held_slot(s.recv_queue, s.recv_ready as int, p.seq);
        let ack = AckEntry { seq: p.seq, timestamp: p.timestamp };
        lemma_absorb_keeps_addr(
            StreamView {
                recv_queue: t.recv_queue.insert(k, p),
                ack_list: t.ack_list.push(ack),
                ..t
            },
        );
        lemma_absorb_keeps_addr(
            StreamView {
                recv_queue: e.recv_queue.insert(k, p),
                ack_list: e.ack_list.push(ack),
                ..e
            },
        );
    }
}

/// Retransmission leaves the peer's address as it was.
pub proof fn lemma_retransmit_keeps_addr(s: StreamView, from: int, ts: u32)
    ensures
        s.retransmit(from, ts).remote_addr == s.remote_addr,
    decreases s.send_queue.len() - from,
{
    if !(from < 0 || from >= s.send_queue.len()) {
        if resend_due(s.send_queue[from], s.rto, ts) {
            let e = resent(s.send_queue[from], ts);
            lemma_retransmit_keeps_addr(
                StreamView { send_queue: s.send_queue.update(from, e), ..s.transmit(e) },
                from + 1,
                ts,
            );
        } else {
            lemma_retransmit_keeps_addr(s, from + 1, ts);
        }
    }
}

/// Refilling the send queue leaves the peer's address as it was.
pub proof fn lemma_replenish_keeps_addr(s: StreamView, ts: u32)
    ensures
        s.replenish(ts).remote_addr == s.remote_addr,
    decreases s.send_buffer.len(),
{
    if s.send_queue.len() < s.remote_window && s.send_buffer.len() > 0 {
        let e = PacketView { timestamp: ts, ..s.send_buffer[0] };
        lemma_replenish_keeps_addr(
            StreamView {
                send_queue: s.send_queue.push(e),
                send_buffer: s.send_buffer.drop_first(),
                ..s.transmit(e)
            },
            ts,
        );
    }
}

/// Sending the acknowledgments owed leaves the peer's address as it was.
pub proof fn lemma_flush_acks_keeps_addr(s: StreamView, ts: u32)
    ensures
        s.flush_acks(ts).remote_addr == s.remote_addr,
    decreases s.ack_list.len(),
{
    if s.ack_list.len() > 0 {
        let p = PacketView {
            payload: ack_payload(s.ack_list.take(s.ack_batch())),
            ..s.new_ack_packet(ts)
        };
        lemma_flush_acks_keeps_addr(
            StreamView { ack_list: s.ack_list.skip(s.ack_batch()), ..s.transmit(p) },
            ts,
        );
    }
}

/// A tick leaves the peer's address as it was.
pub proof fn lemma_update_keeps_addr(s: StreamView, ts: u32)
    ensures
        s.update(ts).remote_addr == s.remote_addr,
{
    lemma_retransmit_keeps_addr(s, 0, ts);
    lemma_replenish_keeps_addr(s.retransmit(0, ts), ts);
    lemma_flush_acks_keeps_addr(s.retransmit(0, ts).replenish(ts), ts);
}

/// Taking readable bytes leaves the peer's address as it was.
pub proof fn lemma_recv_keeps_addr(s: StreamView, capacity: nat)
    ensures
        s.recv(capacity).remote_addr == s.remote_addr,
    decreases s.recv_ready,
{
    if !(capacity == 0 || s.recv_ready == 0 || s.recv_queue.len() == 0 || s.recv_offset
        > s.recv_queue[0].payload.len()) {
        if s.recv_queue[0].payload.len() - s.recv_offset <= capacity {
            lemma_recv_keeps_addr(
                StreamView {
                    recv_queue: s.recv_queue.drop_first(),
                    recv_ready: (s.recv_ready - 1) as nat,
                    recv_offset: 0,
                    ..s
                },
                (capacity - (s.recv_queue[0].payload.len() - s.recv_offset)) as nat,
            );
        }
    }
}

/// Acknowledgments change nothing on the receiving side.
pub proof fn lemma_ack_pairs_keep_ready(s: StreamView, payload: Seq<u8>, k: int, ts: u32)
    ensures
        s.process_ack_pairs(payload, k, ts).recv_ready == s.recv_ready,
    decreases payload.len() - 8 * k,
{
    if !(k < 0 || 8 * k + 8 > payload.len()) {
        lemma_ack_pairs_keep_ready(
            s.process_ack(word_at(payload, 8 * k), word_at(payload, 8 * k + 4), ts),
            payload,
            k + 1,
            ts,
        );
    }
}

/// Retransmission leaves the connection's epoch as it was.
pub proof fn lemma_retransmit_keeps_epoch(s: StreamView, from: int, ts: u32)
    ensures
        s.retransmit(from, ts).initial_time == s.initial_time,
    decreases s.send_queue.len() - from,
{
    if !(from < 0 || from >= s.send_queue.len()) {
        if resend_due(s.send_queue[from], s.rto, ts) {
            let e = resent(s.send_queue[from], ts);
            let next = StreamView { send_queue: s.send_queue.update(from, e), ..s.transmit(e) };
            lemma_retransmit_keeps_epoch(next, from + 1, ts);
        } else {
            lemma_retransmit_keeps_epoch(s, from + 1, ts);
        }
    }
}

/// Refilling the send queue leaves the connection's epoch as it was.
pub proof fn lemma_replenish_keeps_epoch(s: StreamView, ts: u32)
    ensures
        s.replenish(ts).initial_time == s.initial_time,
    decreases s.send_buffer.len(),
{
    if s.send_queue.len() < s.remote_window && s.send_buffer.len() > 0 {
        let e = PacketView { timestamp: ts, ..s.send_buffer[0] };
        let next = StreamView {
            send_queue: s.send_queue.push(e),
            send_buffer: s.send_buffer.drop_first(),
            ..s.transmit(e)
        };
        lemma_replenish_keeps_epoch(next, ts);
    }
}

/// Sending the acknowledgments owed leaves the connection's epoch as it
/// was.
pub proof fn lemma_flush_keeps_epoch(s: StreamView, ts: u32)
    ensures
        s.flush_acks(ts).initial_time == s.initial_time,
    decreases s.ack_list.len(),
{
    if s.ack_list.len() > 0 {
        let p = PacketView {
            payload: ack_payload(s.ack_list.take(s.ack_batch())),
            ..s.new_ack_packet(ts)
        };
        let next = StreamView { ack_list: s.ack_list.skip(s.ack_batch()), ..s.transmit(p) };
        lemma_flush_keeps_epoch(next, ts);
    }
}

} // verus!
