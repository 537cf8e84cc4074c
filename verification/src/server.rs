//! The listening side: the connections by remote address, and the clock of
//! their ticks.

use vstd::prelude::*;
use crate::client::{is_tick_due, received_bytes, tick_due};
use crate::clock::Moment;
use crate::endpoint::Endpoint;
use crate::invariants::{
    lemma_fresh_wf, lemma_process_packet_keeps_addr, lemma_process_packet_wf,
    lemma_recv_keeps_addr, lemma_recv_wf, lemma_send_wf, lemma_update_keeps_addr,
    lemma_update_wf,
};
use crate::model::StreamView;
use crate::packet::{decoded, PacketView, UcpPacket, CMD_SYN};
use crate::stream::{datagrams, UcpStreamImpl};

verus! {

/// What became of a datagram that arrived at the server.
#[derive(Clone, Copy, PartialEq, Eq, Structural, Debug)]
pub enum Routing {
    /// It was not a valid packet, or it came from an unknown address and
    /// was no SYN.
    Dropped,
    /// It went to the connection at `index`; `readable` says whether more
    /// bytes became readable there.
    Delivered { index: usize, readable: bool },
    /// It was a SYN from an unknown address: a new connection stands at
    /// `index`.
    Accepted { index: usize },
}

/// What one turn of the server's event loop did.
#[derive(Clone, Copy, PartialEq, Eq, Structural, Debug)]
pub struct ServerReport {
    pub routing: Routing,
    /// A tick ran.
    pub ticked: bool,
}

/// The first place at or behind `from` where `streams` holds a connection
/// to `addr`; the length of `streams` where there is none.
pub open spec fn find_peer(streams: Seq<StreamView>, from: int, addr: Endpoint) -> int
    decreases streams.len() - from,
{
    if from < 0 || from >= streams.len() {
        streams.len() as int
    } else if streams[from].remote_addr == addr {
        from
    } else {
        find_peer(streams, from + 1, addr)
    }
}

/// Every connection of `streams` after a tick at `now`.
pub open spec fn ticked_all(streams: Seq<StreamView>, now: Moment) -> Seq<StreamView> {
    Seq::new(streams.len(), |i: int| streams[i].update(streams[i].timestamp(now)))
}

/// The state of the listening side.
pub ghost struct ServerView {
    /// The connections, in the order in which they were accepted.
    pub streams: Seq<StreamView>,
    pub update_time: Moment,
}

impl ServerView {
    /// A server that starts to listen at `now`.
    pub open spec fn listening(now: Moment) -> ServerView {
        ServerView { streams: Seq::empty(), update_time: now }
    }

    /// What holds of every server: each connection is well formed, and no
    /// two of them have the same remote address.
    pub open spec fn wf(self) -> bool {
        &&& forall|i: int| 0 <= i < self.streams.len() ==> (#[trigger] self.streams[i]).wf()
        &&& forall|i: int, j: int|
            0 <= i < j < self.streams.len() ==> (#[trigger] self.streams[i]).remote_addr != (
            #[trigger] self.streams[j]).remote_addr
    }

    /// Whether a connection to `addr` is registered.
    pub open spec fn knows(self, addr: Endpoint) -> bool {
        find_peer(self.streams, 0, addr) < self.streams.len()
    }

    /// A SYN `p` arrives at `now` from the unknown address `from`: a new
    /// connection is registered and takes the SYN.
    pub open spec fn new_ucp_stream(
        self,
        p: PacketView,
        from: Endpoint,
        now: Moment,
    ) -> ServerView {
        let fresh = StreamView::fresh(from, now);
        ServerView {
            streams: self.streams.push(fresh.process_packet(p, from, fresh.timestamp(now))),
            ..self
        }
    }

    /// The packet `p` arrives from `from` at `now`: it goes to the
    /// connection registered for `from`; without one, a SYN opens one and
    /// anything else is dropped.
    pub open spec fn route(self, p: PacketView, from: Endpoint, now: Moment) -> ServerView {
        let i = find_peer(self.streams, 0, from);
        if i < self.streams.len() {
            ServerView {
                streams: self.streams.update(
                    i,
                    self.streams[i].process_packet(p, from, self.streams[i].timestamp(now)),
                ),
                ..self
            }
        } else if p.cmd == CMD_SYN {
            self.new_ucp_stream(p, from, now)
        } else {
            self
        }
    }

    /// A datagram arrives from `from` at `now`: one that does not decode is
    /// dropped.
    pub open spec fn process_packet(
        self,
        bytes: Seq<u8>,
        from: Endpoint,
        now: Moment,
    ) -> ServerView {
        match decoded(bytes) {
            Some(p) => self.route(p, from, now),
            None => self,
        }
    }

    /// A tick runs on every connection at `now` if one is due.
    pub open spec fn update(self, now: Moment) -> ServerView {
        if tick_due(self.update_time, now) {
            ServerView { streams: ticked_all(self.streams, now), update_time: now }
        } else {
            self
        }
    }

    /// One turn of the event loop at `now`: the datagram that arrived, if
    /// one did, then a tick if one is due.
    pub open spec fn run_once(
        self,
        received: Option<Seq<u8>>,
        from: Endpoint,
        now: Moment,
    ) -> ServerView {
        match received {
            Some(bytes) => self.process_packet(bytes, from, now).update(now),
            None => self.update(now),
        }
    }

    /// The application sends `payload` at `now` on the connection at
    /// `index`.
    pub open spec fn send(self, index: int, payload: Seq<u8>, now: Moment) -> ServerView {
        if 0 <= index < self.streams.len() {
            ServerView {
                streams: self.streams.update(
                    index,
                    self.streams[index].send(payload, self.streams[index].timestamp(now)),
                ),
                ..self
            }
        } else {
            self
        }
    }

    /// The application takes up to `capacity` readable bytes from the
    /// connection at `index`.
    pub open spec fn recv(self, index: int, capacity: nat) -> ServerView {
        if 0 <= index < self.streams.len() {
            ServerView {
                streams: self.streams.update(index, self.streams[index].recv(capacity)),
                ..self
            }
        } else {
            self
        }
    }
}

/// `find_peer` gives the first place at or behind `from` that holds a
/// connection to `addr`.
pub proof fn lemma_find_peer(streams: Seq<StreamView>, from: int, addr: Endpoint)
    requires
        0 <= from <= streams.len(),
    ensures
        from <= find_peer(streams, from, addr) <= streams.len(),
        find_peer(streams, from, addr) < streams.len() ==> streams[find_peer(
            streams,
            from,
            addr,
        )].remote_addr == addr,
        forall|j: int|
            from <= j < find_peer(streams, from, addr) ==> (#[trigger] streams[j]).remote_addr
                != addr,
    decreases streams.len() - from,
{
    if from < streams.len() && streams[from].remote_addr != addr {
        lemma_find_peer(streams, from + 1, addr);
    }
}

/// Whatever packet arrives, from whomever, a well-formed server stays well
/// formed: no address is ever registered twice.
pub proof fn lemma_route_wf(s: ServerView, p: PacketView, from: Endpoint, now: Moment)
    requires
        s.wf(),
    ensures
        s.route(p, from, now).wf(),
        s.route(p, from, now).streams.len() >= s.streams.len(),
{
    lemma_find_peer(s.streams, 0, from);
    let i = find_peer(s.streams, 0, from);
    let t = s.route(p, from, now);
    if i < s.streams.len() {
        let ts = s.streams[i].timestamp(now);
        lemma_process_packet_wf(s.streams[i], p, from, ts);
        lemma_process_packet_keeps_addr(s.streams[i], p, from, ts);
        assert forall|a: int| 0 <= a < t.streams.len() implies (#[trigger] t.streams[a]).wf() by {
            if a != i {
                assert(t.streams[a] == s.streams[a]);
            }
        }
        assert forall|a: int, b: int| 0 <= a < b < t.streams.len() implies (
        #[trigger] t.streams[a]).remote_addr != (#[trigger] t.streams[b]).remote_addr by {
            assert(t.streams[a].remote_addr == s.streams[a].remote_addr);
            assert(t.streams[b].remote_addr == s.streams[b].remote_addr);
        }
    } else if p.cmd == CMD_SYN {
        let fresh = StreamView::fresh(from, now);
        lemma_fresh_wf(from, now);
        lemma_process_packet_wf(fresh, p, from, fresh.timestamp(now));
        lemma_process_packet_keeps_addr(fresh, p, from, fresh.timestamp(now));
        assert forall|a: int| 0 <= a < t.streams.len() implies (#[trigger] t.streams[a]).wf() by {
            if a < s.streams.len() {
                assert(t.streams[a] == s.streams[a]);
            }
        }
        assert forall|a: int, b: int| 0 <= a < b < t.streams.len() implies (
        #[trigger] t.streams[a]).remote_addr != (#[trigger] t.streams[b]).remote_addr by {
            assert(t.streams[a] == s.streams[a]);
            if b < s.streams.len() {
                assert(t.streams[b] == s.streams[b]);
            }
        }
    }
}

/// A tick keeps a well-formed server well formed.
pub proof fn lemma_server_update_wf(s: ServerView, now: Moment)
    requires
        s.wf(),
    ensures
        s.update(now).wf(),
{
    let t = s.update(now);
    if tick_due(s.update_time, now) {
        assert forall|a: int| 0 <= a < t.streams.len() implies (#[trigger] t.streams[a]).wf()
            && t.streams[a].remote_addr == s.streams[a].remote_addr by {
            lemma_update_wf(s.streams[a], s.streams[a].timestamp(now));
            lemma_update_keeps_addr(s.streams[a], s.streams[a].timestamp(now));
        }
        assert forall|a: int, b: int| 0 <= a < b < t.streams.len() implies (
        #[trigger] t.streams[a]).remote_addr != (#[trigger] t.streams[b]).remote_addr by {
            assert(t.streams[a].remote_addr == s.streams[a].remote_addr);
            assert(t.streams[b].remote_addr == s.streams[b].remote_addr);
        }
    }
}

/// Replacing one connection by a well-formed one to the same peer keeps a
/// well-formed server well formed.
pub proof fn lemma_replace_wf(s: ServerView, index: int, stream: StreamView)
    requires
        s.wf(),
        0 <= index < s.streams.len(),
        stream.wf(),
        stream.remote_addr == s.streams[index].remote_addr,
    ensures
        (ServerView { streams: s.streams.update(index, stream), ..s }).wf(),
{
    let t = ServerView { streams: s.streams.update(index, stream), ..s };
    assert forall|a: int| 0 <= a < t.streams.len() implies (#[trigger] t.streams[a]).wf() by {
        if a != index {
            assert(t.streams[a] == s.streams[a]);
        }
    }
    assert forall|a: int, b: int| 0 <= a < b < t.streams.len() implies (
    #[trigger] t.streams[a]).remote_addr != (#[trigger] t.streams[b]).remote_addr by {
        assert(t.streams[a].remote_addr == s.streams[a].remote_addr);
        assert(t.streams[b].remote_addr == s.streams[b].remote_addr);
    }
}

/// What each connection of `q` is.
pub open spec fn stream_views(q: Seq<UcpStreamImpl>) -> Seq<StreamView> {
    Seq::new(q.len(), |i: int| q[i]@)
}

/// The listening side of many connections.
pub struct UcpServer {
    ucp_map: Vec<UcpStreamImpl>,
    update_time: Moment,
}

impl View for UcpServer {
    type V = ServerView;

    closed spec fn view(&self) -> ServerView {
        ServerView { streams: stream_views(self.ucp_map@), update_time: self.update_time }
    }
}

impl UcpServer {
    /// A server that starts to listen at `now`, with no connection yet.
    pub fn listen_at(now: Moment) -> (s: UcpServer)
        ensures
            s@ == ServerView::listening(now),
            s@.wf(),
    {
        let s = UcpServer { ucp_map: Vec::new(), update_time: now };
        assert(s@.streams =~= Seq::<StreamView>::empty());
        s
    }

    /// A server that starts to listen, now by the system clock.
    pub fn listen() -> (s: UcpServer)
        ensures
            exists|now: Moment| s@ == #[trigger] ServerView::listening(now),
            s@.wf(),
    {
        let now = Moment::now();
        let s = UcpServer::listen_at(now);
        assert(s@ == ServerView::listening(now));
        s
    }

    /// How many connections are registered.
    pub fn stream_count(&self) -> (n: usize)
        ensures
            n == self@.streams.len(),
    {
        self.ucp_map.len()
    }

    /// The connection at `index`, if there is one.
    pub fn stream(&self, index: usize) -> (r: Option<&UcpStreamImpl>)
        ensures
            r.is_some() == (index < self@.streams.len()),
            r.is_some() ==> r.unwrap()@ == self@.streams[index as int],
    {
        if index < self.ucp_map.len() {
            Some(&self.ucp_map[index])
        } else {
            None
        }
    }

    /// Where the connection to `remote_addr` stands, if one is registered.
    pub fn lookup(&self, remote_addr: Endpoint) -> (r: Option<usize>)
        ensures
            r.is_some() == self@.knows(remote_addr),
            r.is_some() ==> r.unwrap() == find_peer(self@.streams, 0, remote_addr),
    {
        let n: usize = self.ucp_map.len();
        let mut i: usize = 0;
        while i < n
            invariant
                n == self.ucp_map@.len(),
                i <= n,
                find_peer(self@.streams, i as int, remote_addr) == find_peer(
                    self@.streams,
                    0,
                    remote_addr,
                ),
            decreases n - i,
        {
            if self.ucp_map[i].remote_addr() == remote_addr {
                return Some(i);
            }
            i = i + 1;
        }
        None
    }

    /// Registers a new connection to `remote_addr`, created at `now`, and
    /// hands it the SYN that opened it. Returns where it stands.
    pub fn new_ucp_stream(
        &mut self,
        packet: &UcpPacket,
        remote_addr: Endpoint,
        now: Moment,
    ) -> (index: usize)
        ensures
            final(self)@ == old(self)@.new_ucp_stream(packet@, remote_addr, now),
            index == old(self)@.streams.len(),
    {
        let mut ucp = UcpStreamImpl::new(remote_addr, now);
        ucp.process_packet(packet, remote_addr, now);
        let index: usize = self.ucp_map.len();
        self.ucp_map.push(ucp);
        proof {
            assert(self@.streams =~= old(self)@.new_ucp_stream(packet@, remote_addr, now).streams);
        }
        index
    }

    /// A datagram arrives from `remote_addr` at `now`. It is decoded; a
    /// valid packet goes to the connection registered for the address, and
    /// a SYN from an unknown address opens a new connection.
    pub fn process_packet_at(
        &mut self,
        packet: UcpPacket,
        remote_addr: Endpoint,
        now: Moment,
    ) -> (routing: Routing)
        ensures
            final(self)@ == old(self)@.process_packet(packet.packed(), remote_addr, now),
            routing == routing_of(old(self)@, final(self)@, packet.packed(), remote_addr),
            old(self)@.wf() ==> final(self)@.wf(),
    {
        let mut packet = packet;
        if !packet.parse() {
            return Routing::Dropped;
        }
        proof {
            if self@.wf() {
                lemma_route_wf(self@, packet@, remote_addr, now);
            }
        }
        match self.lookup(remote_addr) {
            Some(index) => {
                let readable: bool = self.ucp_map[index].process_packet(&packet, remote_addr, now);
                proof {
                    assert(self@.streams =~= old(self)@.route(packet@, remote_addr, now).streams);
                }
                Routing::Delivered { index, readable }
            },
            None => {
                if packet.is_syn() {
                    let index: usize = self.new_ucp_stream(&packet, remote_addr, now);
                    Routing::Accepted { index }
                } else {
                    Routing::Dropped
                }
            },
        }
    }

    /// A datagram arrives from `remote_addr`, now by the system clock.
    pub fn process_packet(&mut self, packet: UcpPacket, remote_addr: Endpoint) -> (routing: Routing)
        ensures
            exists|now: Moment|
                final(self)@ == #[trigger] old(self)@.process_packet(
                    packet.packed(),
                    remote_addr,
                    now,
                ),
            routing == routing_of(old(self)@, final(self)@, packet.packed(), remote_addr),
            old(self)@.wf() ==> final(self)@.wf(),
    {
        let now = Moment::now();
        let routing = self.process_packet_at(packet, remote_addr, now);
        assert(self@ == old(self)@.process_packet(packet.packed(), remote_addr, now));
        routing
    }

    /// Runs a tick on every connection at `now` if one is due. Returns
    /// whether it ran.
    pub fn update_at(&mut self, now: Moment) -> (ticked: bool)
        ensures
            ticked == tick_due(old(self)@.update_time, now),
            final(self)@ == old(self)@.update(now),
            old(self)@.wf() ==> final(self)@.wf(),
    {
        if !is_tick_due(&self.update_time, &now) {
            return false;
        }
        proof {
            if self@.wf() {
                lemma_server_update_wf(self@, now);
            }
        }
        let n: usize = self.ucp_map.len();
        let mut i: usize = 0;
        while i < n
            invariant
                n == self.ucp_map@.len(),
                n == old(self).ucp_map@.len(),
                i <= n,
                self.update_time == old(self).update_time,
                forall|j: int|
                    0 <= j < i ==> (#[trigger] self.ucp_map@[j])@ == old(self).ucp_map@[j]@.update(
                        old(self).ucp_map@[j]@.timestamp(now),
                    ),
                forall|j: int|
                    i <= j < n ==> (#[trigger] self.ucp_map@[j]) == old(self).ucp_map@[j],
            decreases n - i,
        {
            self.ucp_map[i].update(now);
            i = i + 1;
        }
        self.update_time = now;
        proof {
            assert(self@.streams =~= ticked_all(old(self)@.streams, now));
        }
        true
    }

    /// Runs a tick on every connection if one is due by the system clock.
    /// Returns whether it ran.
    pub fn update(&mut self) -> (ticked: bool)
        ensures
            exists|now: Moment|
                final(self)@ == #[trigger] old(self)@.update(now) && ticked == tick_due(
                    old(self)@.update_time,
                    now,
                ),
            old(self)@.wf() ==> final(self)@.wf(),
    {
        let now = Moment::now();
        let ticked: bool = self.update_at(now);
        assert(self@ == old(self)@.update(now));
        ticked
    }

    /// One turn of the event loop at `now`: the datagram that arrived, if
    /// one did, from `from`; then a tick if one is due. A datagram longer
    /// than 1400 bytes is dropped.
    pub fn run_once_at(
        &mut self,
        received: Option<&[u8]>,
        from: Endpoint,
        now: Moment,
    ) -> (report: ServerReport)
        ensures
            final(self)@ == old(self)@.run_once(received_bytes(received), from, now),
            report.ticked == tick_due(old(self)@.update_time, now),
            report.routing == match received_bytes(received) {
                Some(bytes) => routing_of(
                    old(self)@,
                    old(self)@.process_packet(bytes, from, now),
                    bytes,
                    from,
                ),
                None => Routing::Dropped,
            },
            old(self)@.wf() ==> final(self)@.wf(),
    {
        let mut routing = Routing::Dropped;
        match received {
            Some(data) => {
                match UcpPacket::from_bytes(data) {
                    Some(packet) => {
                        routing = self.process_packet_at(packet, from, now);
                    },
                    None => {},
                }
            },
            None => {},
        }
        let ticked: bool = self.update_at(now);
        ServerReport { routing, ticked }
    }

    /// One turn of the event loop, now by the system clock.
    pub fn run_once(&mut self, received: Option<&[u8]>, from: Endpoint) -> (report: ServerReport)
        ensures
            exists|now: Moment|
                final(self)@ == #[trigger] old(self)@.run_once(received_bytes(received), from, now)
                    && report.ticked == tick_due(old(self)@.update_time, now),
            old(self)@.wf() ==> final(self)@.wf(),
    {
        let now = Moment::now();
        let report = self.run_once_at(received, from, now);
        assert(self@ == old(self)@.run_once(received_bytes(received), from, now));
        report
    }

    /// The application sends `buf` at `now` on the connection at `index`.
    /// Returns whether the payload was taken: it is not where there is no
    /// such connection, where `buf` is longer than a packet holds, or where
    /// no sequence number is left.
    pub fn send_at(&mut self, index: usize, buf: &[u8], now: Moment) -> (taken: bool)
        ensures
            taken == (index < old(self)@.streams.len() && old(self)@.streams[index as int].accepts(
                buf@,
            )),
            final(self)@ == old(self)@.send(index as int, buf@, now),
            old(self)@.wf() ==> final(self)@.wf(),
    {
        if index >= self.ucp_map.len() {
            return false;
        }
        let taken: bool = self.ucp_map[index].send(buf, now);
        proof {
            let before = old(self)@.streams[index as int];
            let after = before.send(buf@, before.timestamp(now));
            assert(self@.streams =~= old(self)@.streams.update(index as int, after));
            if old(self)@.wf() {
                lemma_send_wf(before, buf@, before.timestamp(now));
                lemma_replace_wf(old(self)@, index as int, after);
            }
        }
        taken
    }

    /// The application sends `buf` on the connection at `index`, now by the
    /// system clock. Returns whether the payload was taken.
    pub fn send(&mut self, index: usize, buf: &[u8]) -> (taken: bool)
        ensures
            taken == (index < old(self)@.streams.len() && old(self)@.streams[index as int].accepts(
                buf@,
            )),
            exists|now: Moment|
                final(self)@ == #[trigger] old(self)@.send(index as int, buf@, now),
            old(self)@.wf() ==> final(self)@.wf(),
    {
        let now = Moment::now();
        let taken: bool = self.send_at(index, buf, now);
        assert(self@ == old(self)@.send(index as int, buf@, now));
        taken
    }

    /// The application takes readable bytes from the connection at `index`
    /// into the front of `buf`. Returns how many it got: none where there
    /// is no such connection.
    pub fn recv(&mut self, index: usize, buf: &mut [u8]) -> (n: usize)
        ensures
            final(self)@ == old(self)@.recv(index as int, old(buf)@.len()),
            index < old(self)@.streams.len() ==> final(buf)@ == old(self)@.streams[index as int]
                .recv_bytes(old(buf)@.len()) + old(buf)@.skip(n as int),
            index < old(self)@.streams.len() ==> n == old(self)@.streams[index as int]
                .recv_bytes(old(buf)@.len()).len(),
            index >= old(self)@.streams.len() ==> n == 0 && final(buf)@ == old(buf)@,
            old(self)@.wf() ==> final(self)@.wf(),
    {
        if index >= self.ucp_map.len() {
            return 0;
        }
        let n: usize = self.ucp_map[index].recv(buf);
        proof {
            let before = old(self)@.streams[index as int];
            let after = before.recv(old(buf)@.len());
            assert(self@.streams =~= old(self)@.streams.update(index as int, after));
            if old(self)@.wf() {
                lemma_recv_wf(before, old(buf)@.len());
                lemma_recv_keeps_addr(before, old(buf)@.len());
                lemma_replace_wf(old(self)@, index as int, after);
            }
        }
        n
    }

    /// Hands over the datagrams that the connection at `index` wants
    /// transmitted, oldest first: none where there is no such connection.
    pub fn take_outbox(&mut self, index: usize) -> (out: Vec<Vec<u8>>)
        ensures
            index < old(self)@.streams.len() ==> datagrams(out@) == old(
                self,
            )@.streams[index as int].outbox,
            index < old(self)@.streams.len() ==> final(self)@ == (ServerView {
                streams: old(self)@.streams.update(
                    index as int,
                    StreamView { outbox: Seq::empty(), ..old(self)@.streams[index as int] },
                ),
                ..old(self)@
            }),
            index >= old(self)@.streams.len() ==> out@.len() == 0 && final(self)@ == old(self)@,
    {
        if index >= self.ucp_map.len() {
            return Vec::new();
        }
        let out: Vec<Vec<u8>> = self.ucp_map[index].take_outbox();
        proof {
            assert(self@.streams =~= old(self)@.streams.update(
                index as int,
                StreamView { outbox: Seq::empty(), ..old(self)@.streams[index as int] },
            ));
        }
        out
    }
}

/// A handle to one connection of a server: the place where the connection
/// stands among the server's connections. The server never removes a
/// connection, so a handle stays good.
#[derive(Clone, Copy, PartialEq, Eq, Structural, Debug)]
pub struct UcpStream {
    pub index: usize,
}

impl UcpStream {
    /// The handle to the connection at `index`.
    pub fn new(index: usize) -> (h: UcpStream)
        ensures
            h.index == index,
    {
        UcpStream { index }
    }

    /// Sends `buf` on the connection, now by the system clock. Returns
    /// whether the payload was taken.
    pub fn send(&self, server: &mut UcpServer, buf: &[u8]) -> (taken: bool)
        ensures
            taken == (self.index < old(server)@.streams.len() && old(server)@.streams[self.index
                as int].accepts(buf@)),
            exists|now: Moment|
                final(server)@ == #[trigger] old(server)@.send(self.index as int, buf@, now),
            old(server)@.wf() ==> final(server)@.wf(),
    {
        server.send(self.index, buf)
    }

    /// Takes readable bytes from the connection into the front of `buf`.
    /// Returns how many it got.
    pub fn recv(&self, server: &mut UcpServer, buf: &mut [u8]) -> (n: usize)
        ensures
            final(server)@ == old(server)@.recv(self.index as int, old(buf)@.len()),
            self.index < old(server)@.streams.len() ==> final(buf)@ == old(
                server,
            )@.streams[self.index as int].recv_bytes(old(buf)@.len()) + old(buf)@.skip(n as int),
            self.index < old(server)@.streams.len() ==> n == old(
                server,
            )@.streams[self.index as int].recv_bytes(old(buf)@.len()).len(),
            self.index >= old(server)@.streams.len() ==> n == 0 && final(buf)@ == old(buf)@,
            old(server)@.wf() ==> final(server)@.wf(),
    {
        server.recv(self.index, buf)
    }
}

/// What the server reports of a datagram `bytes` from `from` that took it
/// from state `before` to state `after`.
pub open spec fn routing_of(
    before: ServerView,
    after: ServerView,
    bytes: Seq<u8>,
    from: Endpoint,
) -> Routing {
    let i = find_peer(before.streams, 0, from);
    match decoded(bytes) {
        None => Routing::Dropped,
        Some(p) => if i < before.streams.len() {
            Routing::Delivered {
                index: i as usize,
                readable: after.streams[i].recv_ready > before.streams[i].recv_ready,
            }
        } else if p.cmd == CMD_SYN {
            Routing::Accepted { index: before.streams.len() as usize }
        } else {
            Routing::Dropped
        },
    }
}

/// Where a connection to `addr` stands once it is found, it is found
/// again after connections were added behind it or changed without a change
/// of address.
proof fn lemma_find_peer_stable(
    before: Seq<StreamView>,
    after: Seq<StreamView>,
    from: int,
    addr: Endpoint,
)
    requires
        0 <= from,
        before.len() <= after.len(),
        forall|i: int| 0 <= i < before.len() ==> (#[trigger] after[i]).remote_addr
            == before[i].remote_addr,
        forall|i: int| before.len() <= i < after.len() ==> (#[trigger] after[i]).remote_addr
            == addr,
    ensures
        find_peer(before, from, addr) < before.len() ==> find_peer(after, from, addr)
            == find_peer(before, from, addr),
        find_peer(before, from, addr) >= before.len() && from <= before.len() ==> find_peer(
            after,
            from,
            addr,
        ) == before.len(),
    decreases after.len() - from,
{
    if from < after.len() {
        if from < before.len() {
            if before[from].remote_addr != addr {
                lemma_find_peer_stable(before, after, from + 1, addr);
            }
        }
    }
}

/// A SYN from an unknown address is accepted once: it opens a connection to
/// that address, and whatever the address sends afterwards goes to that
/// connection and opens no other.
pub proof fn lemma_accepted_once(
    s: ServerView,
    syn: Seq<u8>,
    from: Endpoint,
    now: Moment,
    next: Seq<u8>,
    later: Moment,
)
    requires
        !s.knows(from),
        decoded(syn).is_some(),
        decoded(syn).unwrap().cmd == CMD_SYN,
        s.streams.len() < usize::MAX,
    ensures
        routing_of(s, s.process_packet(syn, from, now), syn, from) == (Routing::Accepted {
            index: s.streams.len() as usize,
        }),
        s.process_packet(syn, from, now).streams.len() == s.streams.len() + 1,
        s.process_packet(syn, from, now).knows(from),
        s.process_packet(syn, from, now).process_packet(next, from, later).streams.len()
            == s.streams.len() + 1,
        !matches!(
            routing_of(
                s.process_packet(syn, from, now),
                s.process_packet(syn, from, now).process_packet(next, from, later),
                next,
                from,
            ),
            Routing::Accepted { .. }
        ),
{
    let p = decoded(syn).unwrap();
    let t = s.process_packet(syn, from, now);
    let fresh = StreamView::fresh(from, now);
    lemma_find_peer(s.streams, 0, from);
    lemma_process_packet_keeps_addr(fresh, p, from, fresh.timestamp(now));
    assert(t.streams == s.streams.push(fresh.process_packet(p, from, fresh.timestamp(now))));
    lemma_find_peer_stable(s.streams, t.streams, 0, from);
    assert(find_peer(t.streams, 0, from) == s.streams.len());
}

} // verus!
