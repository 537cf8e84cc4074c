//! One connection: the handshake, the send window with its retransmission
//! timer, and the receive queue that puts packets back in order.
//!
//! A connection does no I/O. What it wants transmitted it appends to its
//! outbox, and the time is handed to it with every call.

use std::collections::VecDeque;
use vstd::prelude::*;
use vstd::slice::slice_to_vec;
use crate::bytes::{be_bytes, wrapping_distance};
use crate::clock::Moment;
use crate::endpoint::Endpoint;
use crate::invariants::{
    lemma_ack_pairs_keep_ready, lemma_connecting_wf, lemma_flush_keeps_epoch,
    lemma_process_packet_wf, lemma_recv_wf, lemma_replenish_keeps_epoch,
    lemma_retransmit_keeps_epoch, lemma_send_wf, lemma_update_wf,
};
use crate::model::{
    ack_payload, find_seq, held_slot, AckEntry, StreamView, UcpState, ACKS_PER_PACKET,
    DEFAULT_HEARTBEAT_INTERVAL, DEFAULT_RTO, DEFAULT_WINDOW,
};
use crate::packet::{
    PacketView, UcpPacket, CMD_ACK, CMD_DATA, CMD_HEARTBEAT, CMD_HEARTBEAT_ACK, CMD_SYN,
    CMD_SYN_ACK, UCP_PAYLOAD_MAX,
};

verus! {

/// What each packet of `q` says.
pub open spec fn views(q: Seq<UcpPacket>) -> Seq<PacketView> {
    Seq::new(q.len(), |i: int| q[i]@)
}

/// What each datagram of `q` holds.
pub open spec fn datagrams(q: Seq<Vec<u8>>) -> Seq<Seq<u8>> {
    Seq::new(q.len(), |i: int| q[i]@)
}

/// Copies `count` bytes of `src`, from place `from` on, into `dst` at place
/// `at`. The rest of `dst` stays as it was.
fn copy_into(dst: &mut [u8], at: usize, src: &[u8], from: usize, count: usize)
    requires
        at + count <= old(dst)@.len(),
        from + count <= src@.len(),
    ensures
        final(dst)@ == old(dst)@.take(at as int) + src@.subrange(from as int, from + count)
            + old(dst)@.skip(at + count),
{
    let n: usize = dst.len();
    let m: usize = src.len();
    let mut i: usize = 0;
    while i < count
        invariant
            i <= count,
            n == dst@.len(),
            m == src@.len(),
            at + count <= dst@.len(),
            from + count <= src@.len(),
            dst@.len() == old(dst)@.len(),
            forall|k: int| 0 <= k < at ==> dst@[k] == old(dst)@[k],
            forall|k: int| at <= k < at + i ==> dst@[k] == src@[k - at + from],
            forall|k: int| at + i <= k < dst@.len() ==> dst@[k] == old(dst)@[k],
        decreases count - i,
    {
        dst[at + i] = src[from + i];
        i = i + 1;
    }
    proof {
        assert(dst@ =~= old(dst)@.take(at as int) + src@.subrange(from as int, from + count)
            + old(dst)@.skip(at + count));
    }
}

/// One connection to a peer.
pub struct UcpStreamImpl {
    remote_addr: Endpoint,
    initial_time: Moment,
    state: UcpState,
    send_queue: VecDeque<UcpPacket>,
    recv_queue: VecDeque<UcpPacket>,
    send_buffer: VecDeque<UcpPacket>,
    ack_list: Vec<AckEntry>,
    session_id: u32,
    local_window: u32,
    remote_window: u32,
    seq: u32,
    recv_next: u64,
    rto: u32,
    recv_ready: usize,
    recv_offset: usize,
    last_send: u32,
    heartbeat_interval: u32,
    outbox: Vec<Vec<u8>>,
}

impl View for UcpStreamImpl {
    type V = StreamView;

    closed spec fn view(&self) -> StreamView {
        StreamView {
            remote_addr: self.remote_addr,
            initial_time: self.initial_time,
            state: self.state,
            send_queue: views(self.send_queue@),
            recv_queue: views(self.recv_queue@),
            send_buffer: views(self.send_buffer@),
            ack_list: self.ack_list@,
            session_id: self.session_id,
            local_window: self.local_window,
            remote_window: self.remote_window,
            seq: self.seq,
            recv_next: self.recv_next as nat,
            rto: self.rto,
            recv_ready: self.recv_ready as nat,
            recv_offset: self.recv_offset as nat,
            last_send: self.last_send,
            heartbeat_interval: self.heartbeat_interval,
            outbox: datagrams(self.outbox@),
        }
    }
}

impl UcpStreamImpl {
    /// A connection to `remote_addr`, created at `now`, on which nothing has
    /// happened yet.
    pub fn new(remote_addr: Endpoint, now: Moment) -> (s: UcpStreamImpl)
        ensures
            s@ == StreamView::fresh(remote_addr, now),
            s@.wf(),
    {
        let s = UcpStreamImpl {
            remote_addr,
            initial_time: now,
            state: UcpState::NONE,
            send_queue: VecDeque::new(),
            recv_queue: VecDeque::new(),
            send_buffer: VecDeque::new(),
            ack_list: Vec::new(),
            session_id: 0,
            local_window: DEFAULT_WINDOW,
            remote_window: DEFAULT_WINDOW,
            seq: 0,
            recv_next: 0,
            rto: DEFAULT_RTO,
            recv_ready: 0,
            recv_offset: 0,
            last_send: 0,
            heartbeat_interval: DEFAULT_HEARTBEAT_INTERVAL,
            outbox: Vec::new(),
        };
        proof {
            let f = StreamView::fresh(remote_addr, now);
            assert(s@.send_queue =~= f.send_queue);
            assert(s@.recv_queue =~= f.recv_queue);
            assert(s@.send_buffer =~= f.send_buffer);
            assert(s@.ack_list =~= f.ack_list);
            assert(s@.outbox =~= f.outbox);
        }
        s
    }

    /// The connection's clock at `now`: milliseconds since it was created.
    pub fn timestamp(&self, now: Moment) -> (ts: u32)
        ensures
            ts == self@.timestamp(now),
    {
        now.timestamp_since(&self.initial_time)
    }

    /// Assigns the next sequence number: `None`, and no change, where none
    /// is left.
    pub fn next_seq(&mut self) -> (r: Option<u32>)
        ensures
            r.is_some() == old(self)@.can_number(),
            r.is_some() ==> final(self)@ == old(self)@.numbered() && r.unwrap() == final(self)@.seq,
            r.is_none() ==> final(self)@ == old(self)@,
    {
        if self.seq < u32::MAX {
            self.seq += 1;
            Some(self.seq)
        } else {
            None
        }
    }

    /// A packet with command `cmd` under the next sequence number, stamped
    /// with the connection's clock at `now`: `None`, and no change, where no
    /// sequence number is left.
    pub fn new_packet(&mut self, cmd: u8, now: Moment) -> (r: Option<UcpPacket>)
        ensures
            r.is_some() == old(self)@.can_number(),
            r.is_some() ==> final(self)@ == old(self)@.numbered(),
            r.is_some() ==> r.unwrap()@ == old(self)@.new_packet(cmd, old(self)@.timestamp(now)),
            r.is_none() ==> final(self)@ == old(self)@,
    {
        let ts: u32 = self.timestamp(now);
        match self.next_seq() {
            None => None,
            Some(seq) => Some(
                UcpPacket::with_header(
                    self.session_id,
                    ts,
                    self.local_window,
                    0,
                    self.una(),
                    seq,
                    cmd,
                ),
            ),
        }
    }

    /// A packet with command `cmd` that takes no sequence number.
    pub fn new_plain_packet(&self, cmd: u8, now: Moment) -> (p: UcpPacket)
        ensures
            p@ == self@.new_plain_packet(cmd, self@.timestamp(now)),
    {
        UcpPacket::with_header(
            self.session_id,
            self.timestamp(now),
            self.local_window,
            0,
            self.una(),
            0,
            cmd,
        )
    }

    /// An ACK packet with no payload yet.
    pub fn new_ack_packet(&self, now: Moment) -> (p: UcpPacket)
        ensures
            p@ == self@.new_ack_packet(self@.timestamp(now)),
    {
        self.new_plain_packet(CMD_ACK, now)
    }

    /// Encodes `packet` and appends the datagram to the outbox.
    pub fn send_packet_directly(&mut self, packet: &mut UcpPacket)
        ensures
            final(packet)@ == old(packet)@,
            final(self)@ == old(self)@.transmit(old(packet)@),
    {
        packet.pack();
        let bytes: Vec<u8> = slice_to_vec(packet.packed_buffer());
        self.outbox.push(bytes);
        self.last_send = packet.timestamp();
        proof {
            assert(self@.outbox =~= old(self)@.transmit(old(packet)@).outbox);
        }
    }

    /// Transmits `packet` and keeps it for retransmission if the peer's
    /// window has room; else keeps it back in the send buffer.
    pub fn send_packet(&mut self, packet: UcpPacket)
        ensures
            final(self)@ == old(self)@.send_packet(packet@),
    {
        let mut packet = packet;
        if self.send_queue.len() < self.remote_window as usize {
            self.send_packet_directly(&mut packet);
            self.send_queue.push_back(packet);
            proof {
                assert(self@.send_queue =~= old(self)@.send_queue.push(packet@));
            }
        } else {
            self.send_buffer.push_back(packet);
            proof {
                assert(self@.send_buffer =~= old(self)@.send_buffer.push(packet@));
            }
        }
    }

    /// The application sends `buf`: one DATA packet, transmitted at once if
    /// the peer's window has room, kept back otherwise. Returns whether the
    /// payload was taken: it is not where it is longer than a packet holds
    /// or where no sequence number is left, and then nothing changes.
    pub fn send(&mut self, buf: &[u8], now: Moment) -> (taken: bool)
        ensures
            taken == old(self)@.accepts(buf@),
            final(self)@ == old(self)@.send(buf@, old(self)@.timestamp(now)),
            !taken ==> final(self)@ == old(self)@,
            taken && old(self)@.send_queue.len() < old(self)@.remote_window ==> (
            final(self)@.send_queue.len() == old(self)@.send_queue.len() + 1
                && final(self)@.send_buffer == old(self)@.send_buffer
                && final(self)@.outbox.len() == old(self)@.outbox.len() + 1),
            taken && old(self)@.send_queue.len() >= old(self)@.remote_window ==> (
            final(self)@.send_queue == old(self)@.send_queue
                && final(self)@.send_buffer.len() == old(self)@.send_buffer.len() + 1
                && final(self)@.outbox == old(self)@.outbox),
            old(self)@.wf() ==> final(self)@.wf(),
    {
        proof {
            if self@.wf() {
                lemma_send_wf(self@, buf@, self@.timestamp(now));
            }
        }
        if buf.len() > UCP_PAYLOAD_MAX {
            return false;
        }
        match self.new_packet(CMD_DATA, now) {
            None => false,
            Some(p) => {
                let mut p = p;
                let fits: bool = p.payload_write_slice(buf);
                assert(fits);
                assert(p@.payload =~= buf@);
                self.send_packet(p);
                true
            },
        }
    }

    /// The first place in the send queue that holds a packet numbered `seq`;
    /// the length of the send queue where there is none.
    fn position_of(&self, seq: u32) -> (i: usize)
        ensures
            i == find_seq(self@.send_queue, 0, seq),
            i <= self@.send_queue.len(),
            i < self@.send_queue.len() ==> self.send_queue@[i as int]@.seq == seq,
    {
        let n: usize = self.send_queue.len();
        let mut i: usize = 0;
        while i < n
            invariant
                n == self.send_queue@.len(),
                i <= n,
                find_seq(self@.send_queue, i as int, seq) == find_seq(
                    self@.send_queue,
                    0,
                    seq,
                ),
            decreases n - i,
        {
            if self.send_queue[i].seq() == seq {
                return i;
            }
            i = i + 1;
        }
        n
    }

    /// An acknowledgment of `seq` arrives, echoing `timestamp`: the first
    /// packet so numbered leaves the send queue, and the round trip enters
    /// the timeout. Returns whether there was such a packet; if not, nothing
    /// changes.
    pub fn process_ack(&mut self, seq: u32, timestamp: u32, now: Moment) -> (found: bool)
        ensures
            found == old(self)@.acks(seq),
            final(self)@ == old(self)@.process_ack(seq, timestamp, old(self)@.timestamp(now)),
            !found ==> final(self)@ == old(self)@,
            found ==> final(self)@.send_queue.len() + 1 == old(self)@.send_queue.len(),
    {
        let i: usize = self.position_of(seq);
        if i < self.send_queue.len() {
            let rtt: u32 = wrapping_distance(self.timestamp(now), timestamp);
            self.rto = ((self.rto as u64 + rtt as u64) / 2) as u32;
            self.send_queue.remove(i);
            proof {
                assert(self@.send_queue =~= old(self)@.send_queue.remove(i as int));
            }
            true
        } else {
            false
        }
    }

    /// Processes the acknowledgments in the payload of `packet`, pair by
    /// pair. Bytes behind the last whole pair are passed over.
    pub fn process_ack_pairs(&mut self, packet: &UcpPacket, now: Moment)
        ensures
            final(self)@ == old(self)@.process_ack_pairs(
                packet@.payload,
                0,
                old(self)@.timestamp(now),
            ),
    {
        let n: usize = packet.payload_len();
        let ghost ts = self@.timestamp(now);
        let mut k: usize = 0;
        while 8 * k + 8 <= n
            invariant
                n == packet@.payload.len(),
                n <= UCP_PAYLOAD_MAX,
                8 * k <= n,
                self@.timestamp(now) == ts,
                self@.process_ack_pairs(packet@.payload, k as int, ts) == old(
                    self,
                )@.process_ack_pairs(packet@.payload, 0, ts),
            decreases n - 8 * k,
        {
            let mut offset: isize = (29 + 8 * k) as isize;
            let seq: u32 = packet.parse_u32(&mut offset);
            let timestamp: u32 = packet.parse_u32(&mut offset);
            self.process_ack(seq, timestamp, now);
            k = k + 1;
        }
    }

    /// The application asks to connect under `session_id`: from the initial
    /// state, with a sequence number to spare, the connection sends a SYN
    /// and waits for the answer. Returns whether it did; in any other state
    /// nothing changes.
    pub fn connecting(&mut self, session_id: u32, now: Moment) -> (started: bool)
        ensures
            started == (old(self)@.state == UcpState::NONE && old(self)@.can_number()),
            final(self)@ == old(self)@.connecting(session_id, old(self)@.timestamp(now)),
            !started ==> final(self)@ == old(self)@,
            started ==> final(self)@.state == UcpState::CONNECTING && final(self)@.session_id
                == session_id,
            old(self)@.wf() ==> final(self)@.wf(),
    {
        proof {
            if self@.wf() {
                lemma_connecting_wf(self@, session_id, self@.timestamp(now));
            }
        }
        if !(self.state == UcpState::NONE && self.seq < u32::MAX) {
            return false;
        }
        self.state = UcpState::CONNECTING;
        self.session_id = session_id;
        match self.new_packet(CMD_SYN, now) {
            None => {},
            Some(syn) => {
                self.send_packet(syn);
            },
        }
        true
    }

    /// A SYN arrives on a connection in its initial state: the connection
    /// takes the peer's session and window and answers with a SYN_ACK that
    /// echoes the SYN's sequence number and timestamp. The echo is the
    /// acknowledgment of the SYN, so none is owed for it afterwards. Where
    /// no sequence number is left for the SYN_ACK nothing changes.
    pub fn accepting(&mut self, packet: &UcpPacket, now: Moment)
        ensures
            final(self)@ == old(self)@.accepting(packet@, old(self)@.timestamp(now)),
    {
        if self.seq == u32::MAX {
            return ;
        }
        self.state = UcpState::ACCEPTING;
        self.session_id = packet.session_id();
        self.remote_window = packet.window();
        self.recv_next = packet.seq() as u64 + 1;
        match self.new_packet(CMD_SYN_ACK, now) {
            None => {},
            Some(p) => {
                let mut syn_ack = p;
                syn_ack.payload_write_u32(packet.seq());
                syn_ack.payload_write_u32(packet.timestamp());
                assert(syn_ack@.payload =~= be_bytes(packet@.seq)
                    + be_bytes(packet@.timestamp));
                self.send_packet(syn_ack);
            },
        }
    }

    /// Takes the packets that have become in sequence from the held ones to
    /// the ready ones.
    fn absorb(&mut self)
        ensures
            final(self)@ == old(self)@.absorb(),
    {
        while self.recv_ready < self.recv_queue.len()
            && self.recv_queue[self.recv_ready].seq() as u64 == self.recv_next
            invariant
                self@.absorb() == old(self)@.absorb(),
            decreases self.recv_queue@.len() - self.recv_ready,
        {
            self.recv_ready = self.recv_ready + 1;
            self.recv_next = self.recv_next + 1;
        }
    }

    /// A DATA packet arrives. One that lies within the receive window is
    /// stored at its place in sequence order, unless it is there already,
    /// and acknowledged; one that arrived before is acknowledged again; one
    /// beyond the window is dropped. Returns whether more bytes became
    /// readable.
    pub fn process_data(&mut self, packet: &UcpPacket) -> (readable: bool)
        ensures
            final(self)@ == old(self)@.process_data(packet@),
            readable == (final(self)@.recv_ready > old(self)@.recv_ready),
    {
        let seq: u32 = packet.seq();
        let ack = AckEntry { seq, timestamp: packet.timestamp() };
        if (seq as u64) < self.recv_next {
            self.ack_list.push(ack);
            return false;
        }
        if seq as u64 - self.recv_next >= self.local_window as u64 {
            return false;
        }
        let n: usize = self.recv_queue.len();
        let mut k: usize = if self.recv_ready < n {
            self.recv_ready
        } else {
            n
        };
        while k < n && self.recv_queue[k].seq() < seq
            invariant
                *self == *old(self),
                n == self.recv_queue@.len(),
                k <= n,
                held_slot(self@.recv_queue, k as int, seq) == held_slot(
                    self@.recv_queue,
                    self@.recv_ready as int,
                    seq,
                ),
            decreases n - k,
        {
            k = k + 1;
        }
        if k < n && self.recv_queue[k].seq() == seq {
            self.ack_list.push(ack);
            return false;
        }
        let before: usize = self.recv_ready;
        self.recv_queue.insert(k, *packet);
        self.ack_list.push(ack);
        proof {
            assert(self@.recv_queue =~= old(self)@.recv_queue.insert(k as int, packet@));
        }
        self.absorb();
        self.recv_ready > before
    }

    /// A packet of the connection's session arrives while it waits for the
    /// answer to its SYN. Only a SYN_ACK that echoes a sequence number in the
    /// send queue counts: that packet is retired, an ACK that echoes the
    /// SYN_ACK goes out, and the connection is established. The echo is the
    /// acknowledgment of the SYN_ACK, so none is owed for it afterwards.
    pub fn process_state_connecting(&mut self, packet: &UcpPacket, now: Moment)
        ensures
            final(self)@ == old(self)@.process_state_connecting(
                packet@,
                old(self)@.timestamp(now),
            ),
    {
        if packet.cmd() == CMD_SYN_ACK && packet.payload_len() == 8 {
            let mut offset: isize = packet.payload_start();
            let seq: u32 = packet.parse_u32(&mut offset);
            let timestamp: u32 = packet.parse_u32(&mut offset);
            if self.process_ack(seq, timestamp, now) {
                self.recv_next = packet.seq() as u64 + 1;
                let mut ack = self.new_ack_packet(now);
                ack.payload_write_u32(packet.seq());
                ack.payload_write_u32(packet.timestamp());
                assert(ack@.payload =~= be_bytes(packet@.seq)
                    + be_bytes(packet@.timestamp));
                self.send_packet_directly(&mut ack);
                self.state = UcpState::ESTABLISHED;
            }
        }
    }

    /// A packet of the connection's session arrives while it waits for the
    /// answer to its SYN_ACK. An ACK that echoes the sequence number and the
    /// timestamp of the SYN_ACK as it was last transmitted retires the
    /// SYN_ACK and completes the handshake; a DATA packet completes it too
    /// and is processed as on an established connection. Anything else is
    /// passed over. Returns whether more bytes became readable.
    pub fn process_state_accepting(&mut self, packet: &UcpPacket, now: Moment) -> (readable: bool)
        ensures
            final(self)@ == old(self)@.process_state_accepting(
                packet@,
                old(self)@.timestamp(now),
            ),
            readable == (final(self)@.recv_ready > old(self)@.recv_ready),
    {
        if packet.cmd() == CMD_ACK && packet.payload_len() == 8 {
            let mut offset: isize = packet.payload_start();
            let seq: u32 = packet.parse_u32(&mut offset);
            let timestamp: u32 = packet.parse_u32(&mut offset);
            let i: usize = self.position_of(seq);
            if i < self.send_queue.len() && self.send_queue[i].cmd() == CMD_SYN_ACK
                && self.send_queue[i].timestamp() == timestamp {
                self.process_ack(seq, timestamp, now);
                self.state = UcpState::ESTABLISHED;
            }
            false
        } else if packet.cmd() == CMD_DATA {
            self.state = UcpState::ESTABLISHED;
            self.process_data(packet)
        } else {
            false
        }
    }

    /// A packet of the connection's session arrives on an established
    /// connection: DATA is stored and acknowledged, the acknowledgments of
    /// an ACK retire what they name, a HEARTBEAT is answered at once, and a
    /// repeated SYN or SYN_ACK is acknowledged again. Returns whether more
    /// bytes became readable.
    pub fn process_state_established(
        &mut self,
        packet: &UcpPacket,
        now: Moment,
    ) -> (readable: bool)
        ensures
            final(self)@ == old(self)@.process_state_established(
                packet@,
                old(self)@.timestamp(now),
            ),
            readable == (final(self)@.recv_ready > old(self)@.recv_ready),
    {
        let cmd: u8 = packet.cmd();
        if cmd == CMD_DATA {
            self.process_data(packet)
        } else if cmd == CMD_ACK {
            self.process_ack_pairs(packet, now);
            proof {
                lemma_ack_pairs_keep_ready(
                    old(self)@,
                    packet@.payload,
                    0,
                    old(self)@.timestamp(now),
                );
            }
            false
        } else if cmd == CMD_HEARTBEAT {
            let mut reply = self.new_plain_packet(CMD_HEARTBEAT_ACK, now);
            self.send_packet_directly(&mut reply);
            false
        } else if cmd == CMD_SYN || cmd == CMD_SYN_ACK {
            self.ack_list.push(AckEntry { seq: packet.seq(), timestamp: packet.timestamp() });
            false
        } else {
            false
        }
    }

    /// A packet arrives on a connection past its initial state: one of
    /// another session is dropped; else the peer's window is noted and the
    /// packet is processed as the state asks. Returns whether more bytes
    /// became readable.
    pub fn processing(&mut self, packet: &UcpPacket, now: Moment) -> (readable: bool)
        ensures
            final(self)@ == old(self)@.processing(packet@, old(self)@.timestamp(now)),
            readable == (final(self)@.recv_ready > old(self)@.recv_ready),
    {
        if self.session_id != packet.session_id() {
            return false;
        }
        self.remote_window = packet.window();
        match self.state {
            UcpState::ACCEPTING => self.process_state_accepting(packet, now),
            UcpState::CONNECTING => {
                self.process_state_connecting(packet, now);
                false
            },
            UcpState::ESTABLISHED => self.process_state_established(packet, now),
            UcpState::NONE => false,
        }
    }

    /// A decoded packet arrives from `remote_addr`. One from another address
    /// is dropped. In the initial state only a SYN counts. Returns whether
    /// more bytes became readable.
    pub fn process_packet(
        &mut self,
        packet: &UcpPacket,
        remote_addr: Endpoint,
        now: Moment,
    ) -> (readable: bool)
        ensures
            final(self)@ == old(self)@.process_packet(
                packet@,
                remote_addr,
                old(self)@.timestamp(now),
            ),
            readable == (final(self)@.recv_ready > old(self)@.recv_ready),
            remote_addr != old(self)@.remote_addr ==> final(self)@ == old(self)@,
            old(self)@.state != UcpState::NONE && packet@.session_id != old(self)@.session_id
                ==> final(self)@ == old(self)@,
            old(self)@.wf() ==> final(self)@.wf(),
    {
        proof {
            if self@.wf() {
                lemma_process_packet_wf(
                    self@,
                    packet@,
                    remote_addr,
                    self@.timestamp(now),
                );
            }
        }
        if self.remote_addr != remote_addr {
            return false;
        }
        match self.state {
            UcpState::NONE => {
                if packet.is_syn() {
                    self.accepting(packet, now);
                }
                false
            },
            _ => self.processing(packet, now),
        }
    }

    /// Stamps and transmits again every packet of the send queue whose last
    /// transmission lies further back than the timeout.
    pub fn retransmit(&mut self, now: Moment)
        ensures
            final(self)@ == old(self)@.retransmit(0, old(self)@.timestamp(now)),
    {
        let ts: u32 = self.timestamp(now);
        let n: usize = self.send_queue.len();
        let mut i: usize = 0;
        while i < n
            invariant
                n == self.send_queue@.len(),
                i <= n,
                ts == old(self)@.timestamp(now),
                self@.retransmit(i as int, ts) == old(self)@.retransmit(0, ts),
            decreases n - i,
        {
            let mut e: UcpPacket = self.send_queue[i];
            if wrapping_distance(ts, e.timestamp()) > self.rto {
                let ghost before = self@;
                let xmit: u32 = if e.xmit() < u32::MAX {
                    e.xmit() + 1
                } else {
                    e.xmit()
                };
                e.stamp(ts, xmit);
                self.send_packet_directly(&mut e);
                self.send_queue.remove(i);
                self.send_queue.insert(i, e);
                proof {
                    assert(self@.send_queue =~= before.send_queue.update(i as int, e@));
                }
            }
            i = i + 1;
        }
    }

    /// While the peer's window has room, moves the oldest packet kept back
    /// to the send queue and transmits it, stamped with the time of
    /// transmission.
    pub fn replenish(&mut self, now: Moment)
        ensures
            final(self)@ == old(self)@.replenish(old(self)@.timestamp(now)),
    {
        let ts: u32 = self.timestamp(now);
        while self.send_queue.len() < self.remote_window as usize && self.send_buffer.len() > 0
            invariant
                ts == old(self)@.timestamp(now),
                self@.replenish(ts) == old(self)@.replenish(ts),
            decreases self.send_buffer@.len(),
        {
            let ghost before = self@;
            let head: Option<UcpPacket> = self.send_buffer.pop_front();
            match head {
                None => {},
                Some(p) => {
                    let mut e = p;
                    e.stamp(ts, e.xmit());
                    self.send_packet_directly(&mut e);
                    self.send_queue.push_back(e);
                    proof {
                        assert(self@.send_queue =~= before.send_queue.push(e@));
                        assert(self@.send_buffer =~= before.send_buffer.drop_first());
                    }
                },
            }
        }
    }

    /// Sends the acknowledgments owed, oldest first, as many to an ACK
    /// packet as it holds, and forgets them.
    pub fn flush_acks(&mut self, now: Moment)
        ensures
            final(self)@ == old(self)@.flush_acks(old(self)@.timestamp(now)),
    {
        let ts: u32 = self.timestamp(now);
        while self.ack_list.len() > 0
            invariant
                ts == old(self)@.timestamp(now),
                self@.timestamp(now) == ts,
                self@.flush_acks(ts) == old(self)@.flush_acks(ts),
            decreases self.ack_list@.len(),
        {
            let ghost before = self@;
            let batch: usize = if self.ack_list.len() <= ACKS_PER_PACKET {
                self.ack_list.len()
            } else {
                ACKS_PER_PACKET
            };
            let mut ack = self.new_ack_packet(now);
            let ghost blank = ack@;
            let mut j: usize = 0;
            while j < batch
                invariant
                    j <= batch,
                    batch <= ACKS_PER_PACKET,
                    batch <= self.ack_list@.len(),
                    self@ == before,
                    ack@ == (PacketView {
                        payload: ack_payload(self.ack_list@.take(j as int)),
                        ..blank
                    }),
                    ack@.payload.len() == 8 * j,
                decreases batch - j,
            {
                let entry: AckEntry = self.ack_list[j];
                proof {
                    let upto = self.ack_list@.take(j + 1);
                    assert(upto.drop_last() =~= self.ack_list@.take(j as int));
                    assert(upto.last() == entry);
                }
                ack.payload_write_u32(entry.seq);
                ack.payload_write_u32(entry.timestamp);
                j = j + 1;
            }
            let rest: Vec<AckEntry> = self.ack_list.split_off(batch);
            self.ack_list = rest;
            self.send_packet_directly(&mut ack);
            proof {
                assert(blank.payload =~= Seq::<u8>::empty());
                assert(before.ack_list.take(0) =~= Seq::<AckEntry>::empty());
                assert(self@.ack_list =~= before.ack_list.skip(batch as int));
            }
        }
    }

    /// Sends a heartbeat if the connection is established and has
    /// transmitted nothing for the heartbeat interval.
    pub fn heartbeat(&mut self, now: Moment)
        ensures
            final(self)@ == old(self)@.heartbeat(old(self)@.timestamp(now)),
    {
        let ts: u32 = self.timestamp(now);
        if self.state == UcpState::ESTABLISHED && wrapping_distance(ts, self.last_send)
            >= self.heartbeat_interval {
            let mut beat = self.new_plain_packet(CMD_HEARTBEAT, now);
            self.send_packet_directly(&mut beat);
        }
    }

    /// One tick: retransmissions, then packets kept back, then the
    /// acknowledgments owed, then a heartbeat if nothing went out for too
    /// long.
    pub fn update(&mut self, now: Moment)
        ensures
            final(self)@ == old(self)@.update(old(self)@.timestamp(now)),
            old(self)@.wf() ==> final(self)@.wf(),
    {
        let ghost ts = self@.timestamp(now);
        proof {
            if self@.wf() {
                lemma_update_wf(self@, ts);
            }
        }
        self.retransmit(now);
        proof {
            lemma_retransmit_keeps_epoch(old(self)@, 0, ts);
        }
        self.replenish(now);
        proof {
            lemma_replenish_keeps_epoch(old(self)@.retransmit(0, ts), ts);
        }
        self.flush_acks(now);
        proof {
            lemma_flush_keeps_epoch(old(self)@.retransmit(0, ts).replenish(ts), ts);
        }
        self.heartbeat(now);
    }

    /// The application takes readable bytes, as many as `buf` holds or as
    /// there are, into the front of `buf`. Returns how many it got; the
    /// rest of `buf` stays as it was.
    pub fn recv(&mut self, buf: &mut [u8]) -> (n: usize)
        ensures
            final(self)@ == old(self)@.recv(old(buf)@.len()),
            final(buf)@ == old(self)@.recv_bytes(old(buf)@.len()) + old(buf)@.skip(n as int),
            n == old(self)@.recv_bytes(old(buf)@.len()).len(),
            n <= old(buf)@.len(),
            old(self)@.wf() ==> final(self)@.wf(),
    {
        proof {
            if self@.wf() {
                lemma_recv_wf(self@, buf@.len());
            }
        }
        let cap: usize = buf.len();
        let mut written: usize = 0;
        let mut open: bool = true;
        while open && written < cap && self.recv_ready > 0 && self.recv_queue.len() > 0
            invariant
                cap == old(buf)@.len(),
                buf@.len() == cap,
                written <= cap,
                open ==> self@.recv((cap - written) as nat) == old(self)@.recv(cap as nat),
                !open ==> self@ == old(self)@.recv(cap as nat),
                open ==> buf@.take(written as int) + self@.recv_bytes((cap - written) as nat)
                    == old(self)@.recv_bytes(cap as nat),
                !open ==> buf@.take(written as int) == old(self)@.recv_bytes(cap as nat),
                buf@.skip(written as int) == old(buf)@.skip(written as int),
            decreases self.recv_ready + (if open { 1nat } else { 0nat }),
        {
            let ghost before = self@;
            let ghost filled = buf@;
            let front: UcpPacket = self.recv_queue[0];
            let len: usize = front.payload_len();
            if self.recv_offset > len {
                open = false;
                proof {
                    assert(buf@.take(written as int) + Seq::<u8>::empty() =~= buf@.take(
                        written as int,
                    ));
                }
            } else {
                let avail: usize = len - self.recv_offset;
                let room: usize = cap - written;
                if avail <= room {
                    copy_into(buf, written, front.payload_slice(), self.recv_offset, avail);
                    self.recv_queue.pop_front();
                    self.recv_ready = self.recv_ready - 1;
                    self.recv_offset = 0;
                    written = written + avail;
                    proof {
                        assert(self@.recv_queue =~= before.recv_queue.drop_first());
                        let piece = front@.payload.skip(before.recv_offset as int);
                        assert(piece =~= front@.payload.subrange(
                            before.recv_offset as int,
                            before.recv_offset + avail,
                        ));
                        assert(buf@.take(written as int) =~= filled.take(written - avail)
                            + piece);
                        assert(filled.skip(written as int) =~= filled.skip(written - avail).skip(
                            avail as int,
                        ));
                        assert(old(buf)@.skip(written as int) =~= old(buf)@.skip(
                            written - avail,
                        ).skip(avail as int));
                        assert(buf@.skip(written as int) =~= filled.skip(written as int));
                        assert(before.recv_bytes(room as nat) == piece + self@.recv_bytes(
                            (cap - written) as nat,
                        ));
                        assert(filled.take(written - avail) + (piece + self@.recv_bytes(
                            (cap - written) as nat,
                        )) =~= (filled.take(written - avail) + piece) + self@.recv_bytes(
                            (cap - written) as nat,
                        ));
                    }
                } else {
                    copy_into(buf, written, front.payload_slice(), self.recv_offset, room);
                    self.recv_offset = self.recv_offset + room;
                    proof {
                        let piece = front@.payload.subrange(
                            before.recv_offset as int,
                            before.recv_offset + room,
                        );
                        assert(buf@.take(cap as int) =~= filled.take(written as int) + piece);
                        assert(buf@.skip(cap as int) =~= old(buf)@.skip(cap as int));
                        assert(before.recv_bytes(room as nat) == piece);
                    }
                    written = cap;
                    open = false;
                }
            }
        }
        proof {
            if open {
                assert(self@.recv((cap - written) as nat) == self@);
                assert(self@.recv_bytes((cap - written) as nat) =~= Seq::<u8>::empty());
                assert(buf@.take(written as int) + Seq::<u8>::empty() =~= buf@.take(
                    written as int,
                ));
            }
            assert(buf@ =~= buf@.take(written as int) + buf@.skip(written as int));
        }
        written
    }

    /// Hands over the datagrams that wait for transmission, oldest first,
    /// and empties the outbox.
    pub fn take_outbox(&mut self) -> (out: Vec<Vec<u8>>)
        ensures
            datagrams(out@) == old(self)@.outbox,
            final(self)@ == (StreamView { outbox: Seq::empty(), ..old(self)@ }),
    {
        let mut out: Vec<Vec<u8>> = Vec::new();
        std::mem::swap(&mut self.outbox, &mut out);
        proof {
            assert(self@.outbox =~= Seq::<Seq<u8>>::empty());
        }
        out
    }

    /// Sets how long an established connection may stay silent before it
    /// sends a heartbeat, in milliseconds.
    pub fn set_heartbeat_interval(&mut self, millis: u32)
        ensures
            final(self)@ == (StreamView { heartbeat_interval: millis, ..old(self)@ }),
    {
        self.heartbeat_interval = millis;
    }

    /// Where the connection stands in the handshake.
    pub fn state(&self) -> (r: UcpState)
        ensures
            r == self@.state,
    {
        self.state
    }

    /// The address of the peer.
    pub fn remote_addr(&self) -> (r: Endpoint)
        ensures
            r == self@.remote_addr,
    {
        self.remote_addr
    }

    /// The session the connection belongs to; zero before it has one.
    pub fn session_id(&self) -> (r: u32)
        ensures
            r == self@.session_id,
    {
        self.session_id
    }

    /// The window that the peer advertised last.
    pub fn remote_window(&self) -> (r: u32)
        ensures
            r == self@.remote_window,
    {
        self.remote_window
    }

    /// The window that the connection advertises.
    pub fn local_window(&self) -> (r: u32)
        ensures
            r == self@.local_window,
    {
        self.local_window
    }

    /// The last sequence number assigned.
    pub fn seq(&self) -> (r: u32)
        ensures
            r == self@.seq,
    {
        self.seq
    }

    /// The cumulative acknowledgment that the connection advertises: the
    /// next sequence number expected from the peer, as far as 32 bits hold
    /// it.
    pub fn una(&self) -> (r: u32)
        ensures
            r == self@.una(),
    {
        if self.recv_next > u32::MAX as u64 {
            u32::MAX
        } else {
            self.recv_next as u32
        }
    }

    /// The retransmission timeout, in milliseconds.
    pub fn rto(&self) -> (r: u32)
        ensures
            r == self@.rto,
    {
        self.rto
    }

    /// How many packets are transmitted and not yet acknowledged.
    pub fn send_queue_len(&self) -> (n: usize)
        ensures
            n == self@.send_queue.len(),
    {
        self.send_queue.len()
    }

    /// How many packets wait for room in the send queue.
    pub fn send_buffer_len(&self) -> (n: usize)
        ensures
            n == self@.send_buffer.len(),
    {
        self.send_buffer.len()
    }

    /// How many packets are received and not yet taken by the application,
    /// those held back for a gap included.
    pub fn recv_queue_len(&self) -> (n: usize)
        ensures
            n == self@.recv_queue.len(),
    {
        self.recv_queue.len()
    }

    /// How many acknowledgments are owed to the peer.
    pub fn ack_list_len(&self) -> (n: usize)
        ensures
            n == self@.ack_list.len(),
    {
        self.ack_list.len()
    }

    /// How many datagrams wait for transmission.
    pub fn outbox_len(&self) -> (n: usize)
        ensures
            n == self@.outbox.len(),
    {
        self.outbox.len()
    }
}

} // verus!
