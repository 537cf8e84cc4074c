//! The connection as a mathematical value, and each operation on it as a
//! function from the state before to the state after. The executable
//! connection is proved to follow these functions step by step.

use vstd::prelude::*;
use crate::bytes::{be_bytes, word_at, wrap_sub};
use crate::clock::{timestamp_between, Moment};
use crate::endpoint::Endpoint;
use crate::packet::{
    wire_bytes, PacketView, CMD_ACK, CMD_DATA, CMD_HEARTBEAT, CMD_HEARTBEAT_ACK, CMD_SYN,
    CMD_SYN_ACK, UCP_PAYLOAD_MAX,
};

verus! {

/// The window that each side advertises until told otherwise.
pub const DEFAULT_WINDOW: u32 = 256;

/// The retransmission timeout before any round trip was measured, in
/// milliseconds.
pub const DEFAULT_RTO: u32 = 100;

/// How long a connection may stay silent before it sends a heartbeat, in
/// milliseconds, unless set otherwise.
pub const DEFAULT_HEARTBEAT_INTERVAL: u32 = 1000;

/// How many acknowledgments one ACK packet carries at most.
pub const ACKS_PER_PACKET: usize = 171;

/// Where a connection stands in the handshake.
#[derive(Clone, Copy, PartialEq, Eq, Structural, Debug)]
pub enum UcpState {
    NONE,
    ACCEPTING,
    CONNECTING,
    ESTABLISHED,
}

/// An acknowledgment owed to the peer: the sequence number and the
/// timestamp of the packet that it answers.
#[derive(Clone, Copy, PartialEq, Eq, Structural, Debug)]
pub struct AckEntry {
    pub seq: u32,
    pub timestamp: u32,
}

/// The state of one connection.
pub ghost struct StreamView {
    pub remote_addr: Endpoint,
    pub initial_time: Moment,
    pub state: UcpState,
    /// Packets transmitted and not yet acknowledged.
    pub send_queue: Seq<PacketView>,
    /// Packets received: first `recv_ready` packets in sequence, ready for
    /// the application, then packets held back until a gap before them is
    /// filled.
    pub recv_queue: Seq<PacketView>,
    /// Packets that wait for room in the send queue.
    pub send_buffer: Seq<PacketView>,
    pub ack_list: Seq<AckEntry>,
    pub session_id: u32,
    pub local_window: u32,
    pub remote_window: u32,
    /// The last sequence number assigned.
    pub seq: u32,
    /// The next sequence number expected from the peer: every one below it
    /// has arrived. It is 2^32 once the packet numbered `u32::MAX` has.
    pub recv_next: nat,
    pub rto: u32,
    pub recv_ready: nat,
    /// How many payload bytes of the first received packet the application
    /// has taken already.
    pub recv_offset: nat,
    /// The timestamp of the last transmission.
    pub last_send: u32,
    pub heartbeat_interval: u32,
    /// Datagrams handed to the network, oldest first.
    pub outbox: Seq<Seq<u8>>,
}

/// The first place at or behind `from` where `q` holds a packet numbered
/// `seq`; the length of `q` where there is none.
pub open spec fn find_seq(q: Seq<PacketView>, from: int, seq: u32) -> int
    decreases q.len() - from,
{
    if from < 0 || from >= q.len() {
        q.len() as int
    } else if q[from].seq == seq {
        from
    } else {
        find_seq(q, from + 1, seq)
    }
}

/// The first place at or behind `from` where `q` holds a packet numbered
/// `seq` or higher; the length of `q` where there is none.
pub open spec fn held_slot(q: Seq<PacketView>, from: int, seq: u32) -> int
    decreases q.len() - from,
{
    if from < 0 || from >= q.len() {
        q.len() as int
    } else if q[from].seq >= seq {
        from
    } else {
        held_slot(q, from + 1, seq)
    }
}

/// The timeout after a round trip of `rtt` milliseconds was measured: the
/// mean of the old timeout and the measurement.
pub open spec fn smoothed(rto: u32, rtt: u32) -> u32 {
    ((rto + rtt) / 2) as u32
}

/// Whether a packet last transmitted at its timestamp is due again at `ts`.
pub open spec fn resend_due(e: PacketView, rto: u32, ts: u32) -> bool {
    wrap_sub(ts, e.timestamp) > rto
}

/// The packet as it is transmitted again at `ts`.
pub open spec fn resent(e: PacketView, ts: u32) -> PacketView {
    PacketView {
        timestamp: ts,
        xmit: if e.xmit < u32::MAX {
            (e.xmit + 1) as u32
        } else {
            e.xmit
        },
        ..e
    }
}

/// The payload that acknowledges `acks`: for each, its sequence number and
/// its timestamp as big-endian words.
pub open spec fn ack_payload(acks: Seq<AckEntry>) -> Seq<u8>
    decreases acks.len(),
{
    if acks.len() == 0 {
        Seq::empty()
    } else {
        ack_payload(acks.drop_last()) + be_bytes(acks.last().seq) + be_bytes(acks.last().timestamp)
    }
}

/// The payloads of `q`, one after the other.
pub open spec fn payloads(q: Seq<PacketView>) -> Seq<u8>
    decreases q.len(),
{
    if q.len() == 0 {
        Seq::empty()
    } else {
        q[0].payload + payloads(q.drop_first())
    }
}

impl StreamView {
    /// A connection to `remote_addr` on which nothing has happened yet.
    pub open spec fn fresh(remote_addr: Endpoint, initial_time: Moment) -> StreamView {
        StreamView {
            remote_addr,
            initial_time,
            state: UcpState::NONE,
            send_queue: Seq::empty(),
            recv_queue: Seq::empty(),
            send_buffer: Seq::empty(),
            ack_list: Seq::empty(),
            session_id: 0,
            local_window: DEFAULT_WINDOW,
            remote_window: DEFAULT_WINDOW,
            seq: 0,
            recv_next: 0,
            rto: DEFAULT_RTO,
            recv_ready: 0,
            recv_offset: 0,
            last_send: 0,
            heartbeat_interval: DEFAULT_HEARTBEAT_INTERVAL,
            outbox: Seq::empty(),
        }
    }

    /// The cumulative acknowledgment that the connection advertises: the
    /// next sequence number expected from the peer, as far as 32 bits hold
    /// it.
    pub open spec fn una(self) -> u32 {
        if self.recv_next > u32::MAX {
            u32::MAX
        } else {
            self.recv_next as u32
        }
    }

    /// The connection's clock at `now`: milliseconds since it was created.
    pub open spec fn timestamp(self, now: Moment) -> u32 {
        timestamp_between(now, self.initial_time)
    }

    /// What holds of the sending side of every connection: no packet that
    /// waits for its acknowledgment or for room in the window is numbered
    /// beyond the last number assigned, and no two of them share a number.
    pub open spec fn send_side_wf(self) -> bool {
        &&& forall|i: int|
            0 <= i < self.send_queue.len() ==> (#[trigger] self.send_queue[i]).seq <= self.seq
        &&& forall|i: int|
            0 <= i < self.send_buffer.len() ==> (#[trigger] self.send_buffer[i]).seq <= self.seq
        &&& forall|i: int, j: int|
            0 <= i < j < self.send_queue.len() ==> (#[trigger] self.send_queue[i]).seq != (
            #[trigger] self.send_queue[j]).seq
        &&& forall|i: int, j: int|
            0 <= i < j < self.send_buffer.len() ==> (#[trigger] self.send_buffer[i]).seq != (
            #[trigger] self.send_buffer[j]).seq
        &&& forall|i: int, j: int|
            0 <= i < self.send_queue.len() && 0 <= j < self.send_buffer.len() ==> (
            #[trigger] self.send_queue[i]).seq != (#[trigger] self.send_buffer[j]).seq
    }

    /// What holds of the receiving side: the window is open, the ready
    /// packets are numbered consecutively up to `recv_next`, and the held
    /// ones lie behind `recv_next` within the window, in rising order. With
    /// `settled` false a held packet may be numbered `recv_next` itself, as
    /// it is between its arrival and the moment it is counted as ready.
    pub open spec fn recv_side_wf(self, settled: bool) -> bool {
        &&& self.local_window > 0
        &&& self.recv_next <= 0x1_0000_0000
        &&& self.recv_ready <= self.recv_queue.len()
        &&& self.state == UcpState::NONE || self.state == UcpState::CONNECTING
            ==> self.recv_queue.len() == 0
        &&& self.recv_ready == 0 ==> self.recv_offset == 0
        &&& self.recv_ready > 0 ==> self.recv_offset <= self.recv_queue[0].payload.len()
        &&& forall|i: int|
            0 <= i < self.recv_ready ==> (#[trigger] self.recv_queue[i]).seq + (self.recv_ready
                - i) == self.recv_next
        &&& forall|i: int|
            self.recv_ready <= i < self.recv_queue.len() ==> self.recv_next <= (
            #[trigger] self.recv_queue[i]).seq && self.recv_queue[i].seq - self.recv_next
                < self.local_window
        &&& settled ==> forall|i: int|
            self.recv_ready <= i < self.recv_queue.len() ==> self.recv_next != (
            #[trigger] self.recv_queue[i]).seq
        &&& forall|i: int, j: int|
            self.recv_ready <= i < j < self.recv_queue.len() ==> (#[trigger] self.recv_queue[i]).seq
                < (#[trigger] self.recv_queue[j]).seq
    }

    /// What holds of every connection, whatever has happened on it.
    pub open spec fn wf(self) -> bool {
        self.send_side_wf() && self.recv_side_wf(true)
    }

    /// The bytes that the application can take now: the payloads of the
    /// packets that arrived in sequence, less what it took already.
    pub open spec fn readable(self) -> Seq<u8> {
        payloads(self.recv_queue.take(self.recv_ready as int)).skip(self.recv_offset as int)
    }

    /// Hands `p` to the network.
    pub open spec fn transmit(self, p: PacketView) -> StreamView {
        StreamView { outbox: self.outbox.push(wire_bytes(p)), last_send: p.timestamp, ..self }
    }

    /// Whether a further sequence number can be assigned: whether the
    /// number behind the last one assigned fits in 32 bits.
    pub open spec fn can_number(self) -> bool {
        self.seq < u32::MAX
    }

    /// The connection once the next sequence number is assigned.
    pub open spec fn numbered(self) -> StreamView {
        StreamView { seq: (self.seq + 1) as u32, ..self }
    }

    /// The packet with command `cmd` that takes the next sequence number.
    pub open spec fn new_packet(self, cmd: u8, ts: u32) -> PacketView {
        PacketView {
            session_id: self.session_id,
            timestamp: ts,
            window: self.local_window,
            xmit: 0,
            una: self.una(),
            seq: (self.seq + 1) as u32,
            cmd,
            payload: Seq::empty(),
        }
    }

    /// A packet with command `cmd` that takes no sequence number.
    pub open spec fn new_plain_packet(self, cmd: u8, ts: u32) -> PacketView {
        PacketView {
            session_id: self.session_id,
            timestamp: ts,
            window: self.local_window,
            xmit: 0,
            una: self.una(),
            seq: 0,
            cmd,
            payload: Seq::empty(),
        }
    }

    /// An ACK packet with no payload yet.
    pub open spec fn new_ack_packet(self, ts: u32) -> PacketView {
        self.new_plain_packet(CMD_ACK, ts)
    }

    /// Transmits `p` and keeps it for retransmission if the peer's window
    /// has room; else keeps it back in the send buffer.
    pub open spec fn send_packet(self, p: PacketView) -> StreamView {
        if self.send_queue.len() < self.remote_window {
            StreamView { send_queue: self.send_queue.push(p), ..self.transmit(p) }
        } else {
            StreamView { send_buffer: self.send_buffer.push(p), ..self }
        }
    }

    /// Whether the application's `payload` is taken for sending.
    pub open spec fn accepts(self, payload: Seq<u8>) -> bool {
        payload.len() <= UCP_PAYLOAD_MAX && self.can_number()
    }

    /// The application sends `payload`: one DATA packet, transmitted at once
    /// if the window has room.
    pub open spec fn send(self, payload: Seq<u8>, ts: u32) -> StreamView {
        if self.accepts(payload) {
            self.numbered().send_packet(PacketView { payload, ..self.new_packet(CMD_DATA, ts) })
        } else {
            self
        }
    }

    /// Whether an acknowledgment of `seq` finds a packet to retire.
    pub open spec fn acks(self, seq: u32) -> bool {
        find_seq(self.send_queue, 0, seq) < self.send_queue.len()
    }

    /// An acknowledgment of `seq` arrives at `ts`, echoing `timestamp`: the
    /// first packet so numbered leaves the send queue, and the round trip
    /// enters the timeout. Without such a packet nothing changes.
    pub open spec fn process_ack(self, seq: u32, timestamp: u32, ts: u32) -> StreamView {
        if self.acks(seq) {
            StreamView {
                rto: smoothed(self.rto, wrap_sub(ts, timestamp)),
                send_queue: self.send_queue.remove(find_seq(self.send_queue, 0, seq)),
                ..self
            }
        } else {
            self
        }
    }

    /// The acknowledgments in `payload` from the `k`-th pair on, each
    /// processed in turn. Bytes behind the last whole pair are passed over.
    pub open spec fn process_ack_pairs(self, payload: Seq<u8>, k: int, ts: u32) -> StreamView
        decreases payload.len() - 8 * k,
    {
        if k < 0 || 8 * k + 8 > payload.len() {
            self
        } else {
            self.process_ack(
                word_at(payload, 8 * k),
                word_at(payload, 8 * k + 4),
                ts,
            ).process_ack_pairs(payload, k + 1, ts)
        }
    }

    /// The application asks to connect: from the initial state, with a
    /// sequence number to spare, the connection takes `session_id` and sends
    /// a SYN. In any other state nothing changes.
    pub open spec fn connecting(self, session_id: u32, ts: u32) -> StreamView {
        if self.state == UcpState::NONE && self.can_number() {
            let s = StreamView { state: UcpState::CONNECTING, session_id, ..self };
            s.numbered().send_packet(s.new_packet(CMD_SYN, ts))
        } else {
            self
        }
    }

    /// A SYN arrives on a connection in its initial state: the connection
    /// takes the peer's session and window and answers with a SYN_ACK that
    /// echoes the SYN's sequence number and timestamp. The echo is the
    /// acknowledgment of the SYN, so none is owed for it afterwards. Where
    /// no sequence number is left for the SYN_ACK nothing changes.
    pub open spec fn accepting(self, p: PacketView, ts: u32) -> StreamView {
        if self.can_number() {
            let s = StreamView {
                state: UcpState::ACCEPTING,
                session_id: p.session_id,
                remote_window: p.window,
                recv_next: (p.seq + 1) as nat,
                ..self
            };
            s.numbered().send_packet(
                PacketView {
                    payload: be_bytes(p.seq) + be_bytes(p.timestamp),
                    ..s.new_packet(CMD_SYN_ACK, ts)
                },
            )
        } else {
            self
        }
    }

    /// Takes the packets that have become in sequence from the held ones to
    /// the ready ones.
    pub open spec fn absorb(self) -> StreamView
        decreases self.recv_queue.len() - self.recv_ready,
    {
        if self.recv_ready < self.recv_queue.len() && self.recv_queue[self.recv_ready as int].seq
            == self.recv_next {
            (StreamView {
                recv_ready: self.recv_ready + 1,
                recv_next: self.recv_next + 1,
                ..self
            }).absorb()
        } else {
            self
        }
    }

    /// A DATA packet arrives. One that lies within the receive window is
    /// stored at its place in sequence order, unless it is there already,
    /// and acknowledged; one that arrived before is acknowledged again; one
    /// beyond the window is dropped.
    pub open spec fn process_data(self, p: PacketView) -> StreamView {
        let ack = AckEntry { seq: p.seq, timestamp: p.timestamp };
        if p.seq < self.recv_next {
            StreamView { ack_list: self.ack_list.push(ack), ..self }
        } else if p.seq - self.recv_next >= self.local_window {
            self
        } else {
            let k = held_slot(self.recv_queue, self.recv_ready as int, p.seq);
            if k < self.recv_queue.len() && self.recv_queue[k].seq == p.seq {
                StreamView { ack_list: self.ack_list.push(ack), ..self }
            } else {
                (StreamView {
                    recv_queue: self.recv_queue.insert(k, p),
                    ack_list: self.ack_list.push(ack),
                    ..self
                }).absorb()
            }
        }
    }

    /// A packet of the connection's session arrives while it waits for the
    /// answer to its SYN. Only a SYN_ACK that echoes a sequence number in the
    /// send queue counts: that packet is retired, an ACK that echoes the
    /// SYN_ACK goes out, and the connection is established. The echo is the
    /// acknowledgment of the SYN_ACK, so none is owed for it afterwards.
    pub open spec fn process_state_connecting(self, p: PacketView, ts: u32) -> StreamView {
        if p.cmd == CMD_SYN_ACK && p.payload.len() == 8 && self.acks(word_at(p.payload, 0)) {
            let s = self.process_ack(word_at(p.payload, 0), word_at(p.payload, 4), ts);
            let s = StreamView { recv_next: (p.seq + 1) as nat, ..s };
            let ack = PacketView {
                payload: be_bytes(p.seq) + be_bytes(p.timestamp),
                ..s.new_ack_packet(ts)
            };
            StreamView { state: UcpState::ESTABLISHED, ..s.transmit(ack) }
        } else {
            self
        }
    }

    /// Whether `seq` and `timestamp` are those of a SYN_ACK that waits in the
    /// send queue for its acknowledgment.
    pub open spec fn echoes_syn_ack(self, seq: u32, timestamp: u32) -> bool {
        let i = find_seq(self.send_queue, 0, seq);
        &&& i < self.send_queue.len()
        &&& self.send_queue[i].cmd == CMD_SYN_ACK
        &&& self.send_queue[i].timestamp == timestamp
    }

    /// A packet of the connection's session arrives while it waits for the
    /// answer to its SYN_ACK. An ACK that echoes the sequence number and the
    /// timestamp of the SYN_ACK as it was last transmitted retires the
    /// SYN_ACK and completes the handshake; a DATA packet completes it too
    /// and is processed as on an established connection. Anything else is
    /// passed over.
    pub open spec fn process_state_accepting(self, p: PacketView, ts: u32) -> StreamView {
        if p.cmd == CMD_ACK && p.payload.len() == 8 && self.echoes_syn_ack(
            word_at(p.payload, 0),
            word_at(p.payload, 4),
        ) {
            StreamView {
                state: UcpState::ESTABLISHED,
                ..self.process_ack(word_at(p.payload, 0), word_at(p.payload, 4), ts)
            }
        } else if p.cmd == CMD_DATA {
            (StreamView { state: UcpState::ESTABLISHED, ..self }).process_data(p)
        } else {
            self
        }
    }

    /// A packet of the connection's session arrives on an established
    /// connection.
    pub open spec fn process_state_established(self, p: PacketView, ts: u32) -> StreamView {
        if p.cmd == CMD_DATA {
            self.process_data(p)
        } else if p.cmd == CMD_ACK {
            self.process_ack_pairs(p.payload, 0, ts)
        } else if p.cmd == CMD_HEARTBEAT {
            self.transmit(self.new_plain_packet(CMD_HEARTBEAT_ACK, ts))
        } else if p.cmd == CMD_SYN || p.cmd == CMD_SYN_ACK {
            StreamView {
                ack_list: self.ack_list.push(AckEntry { seq: p.seq, timestamp: p.timestamp }),
                ..self
            }
        } else {
            self
        }
    }

    /// A packet arrives on a connection past its initial state: one of
    /// another session is dropped; else the peer's window is noted and the
    /// packet is processed as the state asks.
    pub open spec fn processing(self, p: PacketView, ts: u32) -> StreamView {
        if self.session_id != p.session_id {
            self
        } else {
            let s = StreamView { remote_window: p.window, ..self };
            match s.state {
                UcpState::ACCEPTING => s.process_state_accepting(p, ts),
                UcpState::CONNECTING => s.process_state_connecting(p, ts),
                UcpState::ESTABLISHED => s.process_state_established(p, ts),
                UcpState::NONE => s,
            }
        }
    }

    /// A decoded packet arrives from `from`. One from another address is
    /// dropped. In the initial state only a SYN counts.
    pub open spec fn process_packet(self, p: PacketView, from: Endpoint, ts: u32) -> StreamView {
        if self.remote_addr != from {
            self
        } else if self.state == UcpState::NONE {
            if p.cmd == CMD_SYN {
                self.accepting(p, ts)
            } else {
                self
            }
        } else {
            self.processing(p, ts)
        }
    }

    /// Every packet of the send queue from place `from` on that is due is
    /// stamped and transmitted again.
    pub open spec fn retransmit(self, from: int, ts: u32) -> StreamView
        decreases self.send_queue.len() - from,
    {
        if from < 0 || from >= self.send_queue.len() {
            self
        } else if resend_due(self.send_queue[from], self.rto, ts) {
            let e = resent(self.send_queue[from], ts);
            (StreamView {
                send_queue: self.send_queue.update(from, e),
                ..self.transmit(e)
            }).retransmit(from + 1, ts)
        } else {
            self.retransmit(from + 1, ts)
        }
    }

    /// While the peer's window has room, the oldest packet kept back moves
    /// to the send queue and is transmitted, stamped `ts`.
    pub open spec fn replenish(self, ts: u32) -> StreamView
        decreases self.send_buffer.len(),
    {
        if self.send_queue.len() < self.remote_window && self.send_buffer.len() > 0 {
            let e = PacketView { timestamp: ts, ..self.send_buffer[0] };
            (StreamView {
                send_queue: self.send_queue.push(e),
                send_buffer: self.send_buffer.drop_first(),
                ..self.transmit(e)
            }).replenish(ts)
        } else {
            self
        }
    }

    /// How many acknowledgments the next ACK packet takes.
    pub open spec fn ack_batch(self) -> int {
        if self.ack_list.len() <= ACKS_PER_PACKET {
            self.ack_list.len() as int
        } else {
            ACKS_PER_PACKET as int
        }
    }

    /// The acknowledgments owed go out, oldest first, as many to an ACK
    /// packet as it holds.
    pub open spec fn flush_acks(self, ts: u32) -> StreamView
        decreases self.ack_list.len(),
    {
        if self.ack_list.len() == 0 {
            self
        } else {
            let p = PacketView {
                payload: ack_payload(self.ack_list.take(self.ack_batch())),
                ..self.new_ack_packet(ts)
            };
            (StreamView {
                ack_list: self.ack_list.skip(self.ack_batch()),
                ..self.transmit(p)
            }).flush_acks(ts)
        }
    }

    /// Whether an established connection has been silent for the heartbeat
    /// interval.
    pub open spec fn heartbeat_due(self, ts: u32) -> bool {
        self.state == UcpState::ESTABLISHED && wrap_sub(ts, self.last_send)
            >= self.heartbeat_interval
    }

    /// A heartbeat goes out if one is due.
    pub open spec fn heartbeat(self, ts: u32) -> StreamView {
        if self.heartbeat_due(ts) {
            self.transmit(self.new_plain_packet(CMD_HEARTBEAT, ts))
        } else {
            self
        }
    }

    /// One tick: retransmissions, then packets kept back, then the
    /// acknowledgments owed, then a heartbeat if nothing else went out for
    /// too long.
    pub open spec fn update(self, ts: u32) -> StreamView {
        self.retransmit(0, ts).replenish(ts).flush_acks(ts).heartbeat(ts)
    }

    /// The application takes up to `capacity` of the readable bytes: the
    /// state afterwards.
    pub open spec fn recv(self, capacity: nat) -> StreamView
        decreases self.recv_ready,
    {
        if capacity == 0 || self.recv_ready == 0 || self.recv_queue.len() == 0
            || self.recv_offset > self.recv_queue[0].payload.len() {
            self
        } else if self.recv_queue[0].payload.len() - self.recv_offset <= capacity {
            (StreamView {
                recv_queue: self.recv_queue.drop_first(),
                recv_ready: (self.recv_ready - 1) as nat,
                recv_offset: 0,
                ..self
            }).recv((capacity - (self.recv_queue[0].payload.len() - self.recv_offset)) as nat)
        } else {
            StreamView { recv_offset: self.recv_offset + capacity, ..self }
        }
    }

    /// The application takes up to `capacity` of the readable bytes: the
    /// bytes it gets.
    pub open spec fn recv_bytes(self, capacity: nat) -> Seq<u8>
        decreases self.recv_ready,
    {
        if capacity == 0 || self.recv_ready == 0 || self.recv_queue.len() == 0
            || self.recv_offset > self.recv_queue[0].payload.len() {
            Seq::empty()
        } else if self.recv_queue[0].payload.len() - self.recv_offset <= capacity {
            self.recv_queue[0].payload.skip(self.recv_offset as int) + (StreamView {
                recv_queue: self.recv_queue.drop_first(),
                recv_ready: (self.recv_ready - 1) as nat,
                recv_offset: 0,
                ..self
            }).recv_bytes(
                (capacity - (self.recv_queue[0].payload.len() - self.recv_offset)) as nat,
            )
        } else {
            self.recv_queue[0].payload.subrange(
                self.recv_offset as int,
                (self.recv_offset + capacity) as int,
            )
        }
    }
}

} // verus!
