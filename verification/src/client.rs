//! The connecting side: one connection and the clock of its ticks.

use vstd::prelude::*;
use crate::clock::{millis_between, Moment};
use crate::endpoint::Endpoint;
use crate::invariants::{
    lemma_connecting_wf, lemma_fresh_wf, lemma_process_packet_wf, lemma_recv_wf, lemma_send_wf,
    lemma_update_wf,
};
use crate::model::StreamView;
use crate::packet::{decoded, UcpPacket};
use crate::stream::{datagrams, UcpStreamImpl};

verus! {

/// The least time between two ticks, in milliseconds.
pub const UPDATE_INTERVAL: u128 = 10;

/// Calls `rand::random::<u32>`. Nothing is promised of the number. Where the
/// system gives the generator no seed the outside function does not return.
#[verifier::external_body]
fn random_u32() -> (r: u32) {
    rand::random::<u32>()
}

/// The session identifier made from a random number: the number itself,
/// but one in place of zero, which stands for "no session yet".
pub open spec fn session_from(raw: u32) -> u32 {
    if raw == 0 {
        1
    } else {
        raw
    }
}

/// Makes a session identifier from a random number.
pub fn pick_session_id(raw: u32) -> (id: u32)
    ensures
        id == session_from(raw),
        id != 0,
{
    if raw == 0 {
        1
    } else {
        raw
    }
}

/// Whether a tick is due at `now` when the last one ran at `last`.
pub open spec fn tick_due(last: Moment, now: Moment) -> bool {
    millis_between(now, last) >= UPDATE_INTERVAL
}

/// Decides whether a tick is due.
pub fn is_tick_due(last: &Moment, now: &Moment) -> (due: bool)
    ensures
        due == tick_due(*last, *now),
{
    now.millis_since(last) >= UPDATE_INTERVAL
}

/// The bytes of the datagram that arrived, if one did.
pub open spec fn received_bytes(received: Option<&[u8]>) -> Option<Seq<u8>> {
    match received {
        Some(data) => Some(data@),
        None => None,
    }
}

/// What one turn of the event loop did.
#[derive(Clone, Copy, PartialEq, Eq, Structural, Debug)]
pub struct LoopReport {
    /// More bytes became readable.
    pub readable: bool,
    /// A tick ran.
    pub ticked: bool,
}

/// The state of the connecting side.
pub ghost struct ClientView {
    pub ucp: StreamView,
    pub update_time: Moment,
}

impl ClientView {
    /// The client right after it asked to connect to `remote_addr` at `now`
    /// under `session_id`.
    pub open spec fn connected(remote_addr: Endpoint, session_id: u32, now: Moment) -> ClientView {
        let fresh = StreamView::fresh(remote_addr, now);
        ClientView { ucp: fresh.connecting(session_id, fresh.timestamp(now)), update_time: now }
    }

    /// What holds of every client.
    pub open spec fn wf(self) -> bool {
        self.ucp.wf()
    }

    /// The application sends `payload` at `now`.
    pub open spec fn send(self, payload: Seq<u8>, now: Moment) -> ClientView {
        ClientView { ucp: self.ucp.send(payload, self.ucp.timestamp(now)), ..self }
    }

    /// The application takes up to `capacity` readable bytes.
    pub open spec fn recv(self, capacity: nat) -> ClientView {
        ClientView { ucp: self.ucp.recv(capacity), ..self }
    }

    /// A tick runs at `now` if one is due.
    pub open spec fn update(self, now: Moment) -> ClientView {
        if tick_due(self.update_time, now) {
            ClientView { ucp: self.ucp.update(self.ucp.timestamp(now)), update_time: now }
        } else {
            self
        }
    }

    /// A datagram arrives from `from` at `now`: one that does not decode is
    /// dropped.
    pub open spec fn process_packet(
        self,
        bytes: Seq<u8>,
        from: Endpoint,
        now: Moment,
    ) -> ClientView {
        match decoded(bytes) {
            Some(p) => ClientView {
                ucp: self.ucp.process_packet(p, from, self.ucp.timestamp(now)),
                ..self
            },
            None => self,
        }
    }

    /// One turn of the event loop at `now`: the datagram that arrived, if
    /// one did, then a tick if one is due.
    pub open spec fn run_once(
        self,
        received: Option<Seq<u8>>,
        from: Endpoint,
        now: Moment,
    ) -> ClientView {
        match received {
            Some(bytes) => self.process_packet(bytes, from, now).update(now),
            None => self.update(now),
        }
    }
}

/// The connecting side of a connection.
pub struct UcpClient {
    ucp: UcpStreamImpl,
    update_time: Moment,
}

impl View for UcpClient {
    type V = ClientView;

    closed spec fn view(&self) -> ClientView {
        ClientView { ucp: self.ucp@, update_time: self.update_time }
    }
}

impl UcpClient {
    /// A client that asks at `now` to connect to `remote_addr` under
    /// `session_id`: its SYN waits in the outbox.
    pub fn connect_at(remote_addr: Endpoint, session_id: u32, now: Moment) -> (c: UcpClient)
        ensures
            c@ == ClientView::connected(remote_addr, session_id, now),
            c@.wf(),
    {
        let mut ucp = UcpStreamImpl::new(remote_addr, now);
        ucp.connecting(session_id, now);
        proof {
            let fresh = StreamView::fresh(remote_addr, now);
            lemma_fresh_wf(remote_addr, now);
            lemma_connecting_wf(fresh, session_id, fresh.timestamp(now));
        }
        UcpClient { ucp, update_time: now }
    }

    /// A client that asks to connect to `remote_addr`, now by the system
    /// clock and under a session identifier drawn at random.
    pub fn connect(remote_addr: Endpoint) -> (c: UcpClient)
        ensures
            exists|raw: u32, now: Moment|
                c@ == #[trigger] ClientView::connected(remote_addr, session_from(raw), now),
            c@.wf(),
            c@.ucp.session_id != 0,
    {
        let now = Moment::now();
        let raw: u32 = random_u32();
        let c = UcpClient::connect_at(remote_addr, pick_session_id(raw), now);
        assert(c@ == ClientView::connected(remote_addr, session_from(raw), now));
        c
    }

    /// The application sends `buf` at `now`. Returns whether the payload was
    /// taken.
    pub fn send_at(&mut self, buf: &[u8], now: Moment) -> (taken: bool)
        ensures
            taken == old(self)@.ucp.accepts(buf@),
            final(self)@ == old(self)@.send(buf@, now),
            old(self)@.wf() ==> final(self)@.wf(),
    {
        proof {
            if self@.wf() {
                lemma_send_wf(self@.ucp, buf@, self@.ucp.timestamp(now));
            }
        }
        self.ucp.send(buf, now)
    }

    /// The application sends `buf`, now by the system clock. Returns whether
    /// the payload was taken.
    pub fn send(&mut self, buf: &[u8]) -> (taken: bool)
        ensures
            taken == old(self)@.ucp.accepts(buf@),
            exists|now: Moment| final(self)@ == #[trigger] old(self)@.send(buf@, now),
            old(self)@.wf() ==> final(self)@.wf(),
    {
        let now = Moment::now();
        let taken: bool = self.send_at(buf, now);
        assert(self@ == old(self)@.send(buf@, now));
        taken
    }

    /// The application takes readable bytes into the front of `buf`.
    /// Returns how many it got.
    pub fn recv(&mut self, buf: &mut [u8]) -> (n: usize)
        ensures
            final(self)@ == old(self)@.recv(old(buf)@.len()),
            final(buf)@ == old(self)@.ucp.recv_bytes(old(buf)@.len()) + old(buf)@.skip(n as int),
            n == old(self)@.ucp.recv_bytes(old(buf)@.len()).len(),
            old(self)@.wf() ==> final(self)@.wf(),
    {
        proof {
            if self@.wf() {
                lemma_recv_wf(self@.ucp, buf@.len());
            }
        }
        self.ucp.recv(buf)
    }

    /// Runs a tick at `now` if one is due. Returns whether it ran.
    pub fn update_at(&mut self, now: Moment) -> (ticked: bool)
        ensures
            ticked == tick_due(old(self)@.update_time, now),
            final(self)@ == old(self)@.update(now),
            old(self)@.wf() ==> final(self)@.wf(),
    {
        if !is_tick_due(&self.update_time, &now) {
            return false;
        }
        proof {
            if self@.wf() {
                lemma_update_wf(self@.ucp, self@.ucp.timestamp(now));
            }
        }
        self.ucp.update(now);
        self.update_time = now;
        true
    }

    /// Runs a tick if one is due by the system clock. Returns whether it
    /// ran.
    pub fn update(&mut self) -> (ticked: bool)
        ensures
            exists|now: Moment|
                final(self)@ == #[trigger] old(self)@.update(now) && ticked == tick_due(
                    old(self)@.update_time,
                    now,
                ),
            old(self)@.wf() ==> final(self)@.wf(),
    {
        let now = Moment::now();
        let ticked: bool = self.update_at(now);
        assert(self@ == old(self)@.update(now));
        ticked
    }

    /// A datagram arrives from `remote_addr` at `now`: it is decoded and, if
    /// valid, handed to the connection. Returns whether more bytes became
    /// readable.
    pub fn process_packet_at(
        &mut self,
        packet: UcpPacket,
        remote_addr: Endpoint,
        now: Moment,
    ) -> (readable: bool)
        ensures
            final(self)@ == old(self)@.process_packet(packet.packed(), remote_addr, now),
            readable == (final(self)@.ucp.recv_ready > old(self)@.ucp.recv_ready),
            old(self)@.wf() ==> final(self)@.wf(),
    {
        let mut packet = packet;
        if !packet.parse() {
            return false;
        }
        proof {
            if self@.wf() {
                lemma_process_packet_wf(
                    self@.ucp,
                    packet@,
                    remote_addr,
                    self@.ucp.timestamp(now),
                );
            }
        }
        self.ucp.process_packet(&packet, remote_addr, now)
    }

    /// A datagram arrives from `remote_addr`, now by the system clock.
    /// Returns whether more bytes became readable.
    pub fn process_packet(&mut self, packet: UcpPacket, remote_addr: Endpoint) -> (readable: bool)
        ensures
            exists|now: Moment|
                final(self)@ == #[trigger] old(self)@.process_packet(
                    packet.packed(),
                    remote_addr,
                    now,
                ),
            readable == (final(self)@.ucp.recv_ready > old(self)@.ucp.recv_ready),
            old(self)@.wf() ==> final(self)@.wf(),
    {
        let now = Moment::now();
        let readable: bool = self.process_packet_at(packet, remote_addr, now);
        assert(self@ == old(self)@.process_packet(packet.packed(), remote_addr, now));
        readable
    }

    /// One turn of the event loop at `now`: the datagram `data`, if
    /// `received` says that one arrived, from `from`; then a tick if one is
    /// due. A datagram longer than 1400 bytes is dropped.
    pub fn run_once_at(
        &mut self,
        received: Option<&[u8]>,
        from: Endpoint,
        now: Moment,
    ) -> (report: LoopReport)
        ensures
            final(self)@ == old(self)@.run_once(
                received_bytes(received),
                from,
                now,
            ),
            report.ticked == tick_due(old(self)@.update_time, now),
            old(self)@.wf() ==> final(self)@.wf(),
    {
        let mut readable: bool = false;
        match received {
            Some(data) => {
                match UcpPacket::from_bytes(data) {
                    Some(packet) => {
                        readable = self.process_packet_at(packet, from, now);
                    },
                    None => {},
                }
            },
            None => {},
        }
        let ticked: bool = self.update_at(now);
        LoopReport { readable, ticked }
    }

    /// One turn of the event loop, now by the system clock.
    pub fn run_once(&mut self, received: Option<&[u8]>, from: Endpoint) -> (report: LoopReport)
        ensures
            exists|now: Moment|
                final(self)@ == #[trigger] old(self)@.run_once(
                    received_bytes(received),
                    from,
                    now,
                ) && report.ticked == tick_due(old(self)@.update_time, now),
            old(self)@.wf() ==> final(self)@.wf(),
    {
        let now = Moment::now();
        let report = self.run_once_at(received, from, now);
        assert(self@ == old(self)@.run_once(
            received_bytes(received),
            from,
            now,
        ));
        report
    }

    /// Hands over the datagrams that wait for transmission, oldest first.
    pub fn take_outbox(&mut self) -> (out: Vec<Vec<u8>>)
        ensures
            datagrams(out@) == old(self)@.ucp.outbox,
            final(self)@ == (ClientView {
                ucp: StreamView { outbox: Seq::empty(), ..old(self)@.ucp },
                ..old(self)@
            }),
    {
        self.ucp.take_outbox()
    }

    /// The connection.
    pub fn stream(&self) -> (s: &UcpStreamImpl)
        ensures
            s@ == self@.ucp,
    {
        &self.ucp
    }
}

} // verus!
