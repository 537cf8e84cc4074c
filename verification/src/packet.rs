//! The wire packet: a fixed 29-byte big-endian header, a checksum over
//! everything behind the checksum field, and up to 1371 bytes of payload.

use vstd::prelude::*;
use vstd::slice::slice_subrange;
use crate::bytes::{be_bytes, byte0, byte1, byte2, byte3, join_word, split_word, word_at};
use crate::bytes::{lemma_bytes_of_word, lemma_word_of_bytes};

verus! {

/// Opens a handshake.
pub const CMD_SYN: u8 = 128;

/// Answers a SYN and echoes it.
pub const CMD_SYN_ACK: u8 = 129;

/// Acknowledges packets: its payload echoes their sequence numbers and
/// timestamps.
pub const CMD_ACK: u8 = 130;

/// Carries application data.
pub const CMD_DATA: u8 = 131;

/// Shows that an idle connection is alive.
pub const CMD_HEARTBEAT: u8 = 132;

/// Answers a heartbeat.
pub const CMD_HEARTBEAT_ACK: u8 = 133;

/// Bytes of header in front of the payload.
pub const UCP_PACKET_META_SIZE: usize = 29;

/// The largest datagram.
pub const UCP_PACKET_MAX_SIZE: usize = 1400;

/// The largest payload: what a datagram holds behind the header.
pub const UCP_PAYLOAD_MAX: usize = 1371;

/// The IEEE CRC-32 of `bytes`.
pub uninterp spec fn crc32_ieee(bytes: Seq<u8>) -> u32;

/// Calls `crc::crc32::checksum_ieee`. Trusted: the digest is a function of
/// the bytes alone, and `crc32_ieee` is the name of that function.
#[verifier::external_body]
fn checksum_ieee(bytes: &[u8]) -> (digest: u32)
    ensures
        digest == crc32_ieee(bytes@),
{
    crc::crc32::checksum_ieee(bytes)
}

/// What a packet says: its header fields and its payload bytes.
pub ghost struct PacketView {
    pub session_id: u32,
    pub timestamp: u32,
    pub window: u32,
    pub xmit: u32,
    pub una: u32,
    pub seq: u32,
    pub cmd: u8,
    pub payload: Seq<u8>,
}

/// The packet whose fields are all zero and whose payload is empty.
pub open spec fn blank_packet() -> PacketView {
    PacketView {
        session_id: 0,
        timestamp: 0,
        window: 0,
        xmit: 0,
        una: 0,
        seq: 0,
        cmd: 0,
        payload: Seq::empty(),
    }
}

/// Whether `cmd` is one of the six command codes.
pub open spec fn is_command(cmd: u8) -> bool {
    CMD_SYN <= cmd <= CMD_HEARTBEAT_ACK
}

/// Everything a datagram holds behind its checksum field.
pub open spec fn wire_body(p: PacketView) -> Seq<u8> {
    be_bytes(p.session_id) + be_bytes(p.timestamp) + be_bytes(p.window) + be_bytes(p.xmit)
        + be_bytes(p.una) + be_bytes(p.seq) + seq![p.cmd] + p.payload
}

/// The datagram that carries `p`: the checksum of the body, then the body.
pub open spec fn wire_bytes(p: PacketView) -> Seq<u8> {
    be_bytes(crc32_ieee(wire_body(p))) + wire_body(p)
}

/// Whether a datagram has room for a header and some payload, and carries
/// the checksum of what follows its checksum field.
pub open spec fn legal_bytes(bytes: Seq<u8>) -> bool {
    &&& UCP_PACKET_META_SIZE < bytes.len() <= UCP_PACKET_MAX_SIZE
    &&& crc32_ieee(bytes.subrange(4, bytes.len() as int)) == word_at(bytes, 0)
}

/// The fields that stand in a datagram, read at their fixed places.
pub open spec fn fields_of(bytes: Seq<u8>) -> PacketView
    recommends
        UCP_PACKET_META_SIZE <= bytes.len(),
{
    PacketView {
        session_id: word_at(bytes, 4),
        timestamp: word_at(bytes, 8),
        window: word_at(bytes, 12),
        xmit: word_at(bytes, 16),
        una: word_at(bytes, 20),
        seq: word_at(bytes, 24),
        cmd: bytes[28],
        payload: bytes.subrange(UCP_PACKET_META_SIZE as int, bytes.len() as int),
    }
}

/// The packet that a datagram decodes to, if it decodes at all.
pub open spec fn decoded(bytes: Seq<u8>) -> Option<PacketView> {
    if legal_bytes(bytes) && is_command(bytes[28]) {
        Some(fields_of(bytes))
    } else {
        None
    }
}

/// Whether `s` holds the big-endian bytes of `u` at `at`.
pub open spec fn holds_word(s: Seq<u8>, at: int, u: u32) -> bool {
    &&& s[at] == byte0(u)
    &&& s[at + 1] == byte1(u)
    &&& s[at + 2] == byte2(u)
    &&& s[at + 3] == byte3(u)
}

/// Whether `s` is laid out as the body of `p`: six words, the command,
/// then the payload.
pub open spec fn body_layout(s: Seq<u8>, p: PacketView) -> bool {
    &&& s.len() == 25 + p.payload.len()
    &&& holds_word(s, 0, p.session_id)
    &&& holds_word(s, 4, p.timestamp)
    &&& holds_word(s, 8, p.window)
    &&& holds_word(s, 12, p.xmit)
    &&& holds_word(s, 16, p.una)
    &&& holds_word(s, 20, p.seq)
    &&& s[24] == p.cmd
    &&& forall|i: int| 0 <= i < p.payload.len() ==> s[25 + i] == p.payload[i]
}

/// A sequence is the body of `p` exactly when it is laid out as one.
pub proof fn lemma_body_layout(s: Seq<u8>, p: PacketView)
    ensures
        body_layout(s, p) <==> s == wire_body(p),
{
    let a = be_bytes(p.session_id) + be_bytes(p.timestamp) + be_bytes(p.window);
    let b = a + be_bytes(p.xmit) + be_bytes(p.una) + be_bytes(p.seq);
    let c = b + seq![p.cmd];
    assert(a.len() == 12);
    assert(b.len() == 24);
    assert(c.len() == 25);
    assert(wire_body(p) == c + p.payload);
    assert(body_layout(wire_body(p), p));
    if body_layout(s, p) {
        assert(s =~= wire_body(p));
    }
}

/// A word that stands in `s` is the word that `word_at` reads there.
pub proof fn lemma_holds_word(s: Seq<u8>, at: int, u: u32)
    ensures
        holds_word(s, at, u) <==> (word_at(s, at) == u),
{
    lemma_word_of_bytes(u);
    lemma_bytes_of_word(s[at], s[at + 1], s[at + 2], s[at + 3]);
}

/// The smaller of `n` and `limit`.
pub open spec fn at_most(n: nat, limit: nat) -> nat {
    if n <= limit {
        n
    } else {
        limit
    }
}

/// One datagram: the raw bytes, how many of them count, and the header
/// fields in decoded form.
#[derive(Clone, Copy)]
pub struct UcpPacket {
    buf: [u8; 1400],
    size: usize,
    payload: u16,
    session_id: u32,
    timestamp: u32,
    window: u32,
    xmit: u32,
    una: u32,
    seq: u32,
    cmd: u8,
}

impl View for UcpPacket {
    type V = PacketView;

    closed spec fn view(&self) -> PacketView {
        PacketView {
            session_id: self.session_id,
            timestamp: self.timestamp,
            window: self.window,
            xmit: self.xmit,
            una: self.una,
            seq: self.seq,
            cmd: self.cmd,
            payload: self.buf@.subrange(
                UCP_PACKET_META_SIZE as int,
                UCP_PACKET_META_SIZE + at_most(self.payload as nat, UCP_PAYLOAD_MAX as nat),
            ),
        }
    }
}

impl UcpPacket {
    #[verifier::type_invariant]
    closed spec fn inv(&self) -> bool {
        &&& self.size <= UCP_PACKET_MAX_SIZE
        &&& self.payload <= UCP_PAYLOAD_MAX
    }

    /// The whole 1400-byte buffer.
    pub closed spec fn buffer(&self) -> Seq<u8> {
        self.buf@
    }

    /// How many bytes of the buffer make up the datagram.
    pub closed spec fn spec_size(&self) -> nat {
        at_most(self.size as nat, UCP_PACKET_MAX_SIZE as nat)
    }

    /// The datagram: the first `spec_size()` bytes of the buffer.
    pub open spec fn packed(&self) -> Seq<u8> {
        self.buffer().subrange(0, self.spec_size() as int)
    }

    /// Whether two packets agree in every header field and in the length of
    /// their payloads.
    spec fn same_fields(&self, other: UcpPacket) -> bool {
        &&& self.payload == other.payload
        &&& self.session_id == other.session_id
        &&& self.timestamp == other.timestamp
        &&& self.window == other.window
        &&& self.xmit == other.xmit
        &&& self.una == other.una
        &&& self.seq == other.seq
        &&& self.cmd == other.cmd
    }

    /// What the packet says once its buffer holds `buffer`: the same header
    /// fields, and as many payload bytes as before, as they stand in
    /// `buffer` behind the header.
    pub open spec fn with_buffer(v: PacketView, buffer: Seq<u8>) -> PacketView {
        PacketView {
            payload: buffer.subrange(
                UCP_PACKET_META_SIZE as int,
                UCP_PACKET_META_SIZE + v.payload.len(),
            ),
            ..v
        }
    }

    /// How a packet is laid out, whatever packet it is: the buffer has 1400
    /// bytes, the datagram lies within it, and the payload is what stands in
    /// the buffer behind the header, 1371 bytes at most.
    pub proof fn lemma_layout(&self)
        ensures
            self.buffer().len() == UCP_PACKET_MAX_SIZE,
            self.spec_size() <= UCP_PACKET_MAX_SIZE,
            self.packed().len() == self.spec_size(),
            self@.payload.len() <= UCP_PAYLOAD_MAX,
            self@.payload == self.buffer().subrange(
                UCP_PACKET_META_SIZE as int,
                UCP_PACKET_META_SIZE + self@.payload.len(),
            ),
    {
    }

    /// An empty packet: all fields zero, no payload, no datagram bytes.
    pub fn new() -> (p: UcpPacket)
        ensures
            p@ == blank_packet(),
            p.spec_size() == 0,
            p.buffer() == Seq::new(1400, |i: int| 0u8),
    {
        let p = UcpPacket {
            buf: [0u8;1400],
            size: 0,
            payload: 0,
            session_id: 0,
            timestamp: 0,
            window: 0,
            xmit: 0,
            una: 0,
            seq: 0,
            cmd: 0,
        };
        assert(p@.payload =~= Seq::empty());
        assert(p.buffer() =~= Seq::new(1400, |i: int| 0u8));
        p
    }

    /// A packet with the given header fields and no payload yet.
    pub fn with_header(
        session_id: u32,
        timestamp: u32,
        window: u32,
        xmit: u32,
        una: u32,
        seq: u32,
        cmd: u8,
    ) -> (p: UcpPacket)
        ensures
            p@ == (PacketView {
                session_id,
                timestamp,
                window,
                xmit,
                una,
                seq,
                cmd,
                payload: Seq::empty(),
            }),
            p.spec_size() == 0,
            p.buffer() == Seq::new(1400, |i: int| 0u8),
    {
        let p = UcpPacket {
            buf: [0u8;1400],
            size: 0,
            payload: 0,
            session_id,
            timestamp,
            window,
            xmit,
            una,
            seq,
            cmd,
        };
        assert(p@.payload =~= Seq::empty());
        assert(p.buffer() =~= Seq::new(1400, |i: int| 0u8));
        p
    }

    /// A packet that holds `data` as its datagram, not parsed yet: `None`
    /// where `data` is longer than a datagram may be.
    pub fn from_bytes(data: &[u8]) -> (r: Option<UcpPacket>)
        ensures
            r.is_some() == (data@.len() <= UCP_PACKET_MAX_SIZE),
            r.is_some() ==> r.unwrap().packed() == data@ && r.unwrap()@ == blank_packet(),
            r.is_some() ==> r.unwrap().spec_size() == data@.len() && r.unwrap().buffer() == data@
                + Seq::new((1400 - data@.len()) as nat, |i: int| 0u8),
    {
        let n: usize = data.len();
        if n > UCP_PACKET_MAX_SIZE {
            return None;
        }
        let mut p = UcpPacket::with_header(0, 0, 0, 0, 0, 0, 0);
        proof {
            use_type_invariant(&p);
            assert(p@.payload.len() == 0);
        }
        let mut i: usize = 0;
        while i < n
            invariant
                n == data@.len(),
                n <= UCP_PACKET_MAX_SIZE,
                i <= n,
                p.size == 0,
                p.payload == 0,
                p.session_id == 0 && p.timestamp == 0 && p.window == 0 && p.xmit == 0 && p.una
                    == 0 && p.seq == 0 && p.cmd == 0,
                forall|k: int| 0 <= k < i ==> p.buf@[k] == data@[k],
                forall|k: int| i <= k < 1400 ==> p.buf@[k] == 0u8,
            decreases n - i,
        {
            p.buf[i] = data[i];
            i = i + 1;
        }
        p.size = n;
        assert(p.packed() =~= data@);
        assert(p.buffer() =~= data@ + Seq::new((1400 - data@.len()) as nat, |i: int| 0u8));
        assert(p@.payload =~= Seq::empty());
        Some(p)
    }

    /// Reads the big-endian word at `offset` and moves `offset` behind it.
    pub fn parse_u32(&self, offset: &mut isize) -> (u: u32)
        requires
            0 <= *old(offset),
            *old(offset) + 4 <= UCP_PACKET_MAX_SIZE,
        ensures
            *final(offset) == *old(offset) + 4,
            u == word_at(self.buffer(), *old(offset) as int),
            UCP_PACKET_META_SIZE <= *old(offset) && *old(offset) + 4 <= UCP_PACKET_META_SIZE
                + self@.payload.len() ==> u == word_at(
                self@.payload,
                *old(offset) - UCP_PACKET_META_SIZE,
            ),
    {
        proof {
            use_type_invariant(self);
        }
        let at: usize = *offset as usize;
        let u: u32 = join_word(self.buf[at], self.buf[at + 1], self.buf[at + 2], self.buf[at + 3]);
        *offset = *offset + 4;
        u
    }

    /// Reads the byte at `offset` and moves `offset` behind it.
    pub fn parse_u8(&self, offset: &mut isize) -> (u: u8)
        requires
            0 <= *old(offset) < UCP_PACKET_MAX_SIZE,
        ensures
            *final(offset) == *old(offset) + 1,
            u == self.buffer()[*old(offset) as int],
    {
        let u: u8 = self.buf[*offset as usize];
        *offset = *offset + 1;
        u
    }

    /// Writes `u` big-endian at place `at`. Only the four bytes change.
    fn put_u32(&mut self, at: usize, u: u32)
        requires
            at + 4 <= UCP_PACKET_MAX_SIZE,
        ensures
            final(self).buf@ == old(self).buf@.update(at as int, byte0(u)).update(
                at + 1,
                byte1(u),
            ).update(at + 2, byte2(u)).update(at + 3, byte3(u)),
            final(self).size == old(self).size,
            final(self).same_fields(*old(self)),
    {
        proof {
            use_type_invariant(&*self);
        }
        let (b0, b1, b2, b3) = split_word(u);
        self.buf[at] = b0;
        self.buf[at + 1] = b1;
        self.buf[at + 2] = b2;
        self.buf[at + 3] = b3;
    }

    /// Writes `u` at place `at`. Only that byte changes.
    fn put_u8(&mut self, at: usize, u: u8)
        requires
            at < UCP_PACKET_MAX_SIZE,
        ensures
            final(self).buf@ == old(self).buf@.update(at as int, u),
            final(self).size == old(self).size,
            final(self).same_fields(*old(self)),
    {
        proof {
            use_type_invariant(&*self);
        }
        self.buf[at] = u;
    }

    /// Writes `u` big-endian at `offset` and moves `offset` behind it.
    /// Only the four bytes change.
    pub fn write_u32(&mut self, offset: &mut isize, u: u32)
        requires
            0 <= *old(offset),
            *old(offset) + 4 <= UCP_PACKET_MAX_SIZE,
        ensures
            *final(offset) == *old(offset) + 4,
            final(self).buffer() == old(self).buffer().update(
                *old(offset) as int,
                byte0(u),
            ).update(*old(offset) + 1, byte1(u)).update(*old(offset) + 2, byte2(u)).update(
                *old(offset) + 3,
                byte3(u),
            ),
            final(self).spec_size() == old(self).spec_size(),
            final(self)@ == UcpPacket::with_buffer(old(self)@, final(self).buffer()),
    {
        proof {
            use_type_invariant(&*self);
        }
        self.put_u32(*offset as usize, u);
        *offset = *offset + 4;
    }

    /// Writes `u` at `offset` and moves `offset` behind it. Only that byte
    /// changes.
    pub fn write_u8(&mut self, offset: &mut isize, u: u8)
        requires
            0 <= *old(offset) < UCP_PACKET_MAX_SIZE,
        ensures
            *final(offset) == *old(offset) + 1,
            final(self).buffer() == old(self).buffer().update(*old(offset) as int, u),
            final(self).spec_size() == old(self).spec_size(),
            final(self)@ == UcpPacket::with_buffer(old(self)@, final(self).buffer()),
    {
        proof {
            use_type_invariant(&*self);
        }
        self.put_u8(*offset as usize, u);
        *offset = *offset + 1;
    }

    /// Whether the checksum field holds `digest`.
    pub fn holds_checksum(&self, digest: u32) -> (ok: bool)
        ensures
            ok == (word_at(self.buffer(), 0) == digest),
    {
        let mut offset: isize = 0;
        self.parse_u32(&mut offset) == digest
    }

    /// Writes `digest` into the checksum field. Nothing else changes.
    pub fn write_checksum(&mut self, digest: u32)
        ensures
            final(self).buffer() == be_bytes(digest) + old(self).buffer().skip(4),
            final(self).spec_size() == old(self).spec_size(),
            final(self)@ == old(self)@,
    {
        proof {
            use_type_invariant(&*self);
        }
        self.put_u32(0, digest);
        proof {
            assert(self.buffer() =~= be_bytes(digest) + old(self).buffer().skip(4));
            assert(self@.payload =~= old(self)@.payload);
        }
    }

    /// Whether the first four bytes hold the checksum of the rest of the
    /// datagram.
    pub fn is_crc32_correct(&self) -> (ok: bool)
        requires
            self.spec_size() >= 4,
        ensures
            ok == (crc32_ieee(self.packed().subrange(4, self.spec_size() as int)) == word_at(
                self.packed(),
                0,
            )),
    {
        proof {
            use_type_invariant(self);
        }
        let rest = slice_subrange(self.buf.as_slice(), 4, self.size);
        assert(rest@ =~= self.packed().subrange(4, self.spec_size() as int));
        self.holds_checksum(checksum_ieee(rest))
    }

    /// Whether the datagram is longer than a header and its checksum holds.
    pub fn is_legal(&self) -> (ok: bool)
        ensures
            ok == legal_bytes(self.packed()),
    {
        proof {
            use_type_invariant(self);
        }
        self.size > UCP_PACKET_META_SIZE && self.is_crc32_correct()
    }

    /// Reads the header fields and the payload length from a datagram that
    /// is longer than a header, whatever its checksum. Returns whether the
    /// command is one of the six; if not, or if the datagram is no longer
    /// than a header, the packet stays as it was.
    pub fn parse_fields(&mut self) -> (ok: bool)
        ensures
            ok == (old(self).spec_size() > UCP_PACKET_META_SIZE && is_command(
                old(self).packed()[28],
            )),
            ok ==> final(self)@ == fields_of(old(self).packed()),
            !ok ==> *final(self) == *old(self),
            final(self).spec_size() == old(self).spec_size(),
            final(self).buffer() == old(self).buffer(),
    {
        proof {
            use_type_invariant(&*self);
        }
        if self.size <= UCP_PACKET_META_SIZE {
            return false;
        }
        let mut offset: isize = 4;
        let session_id: u32 = self.parse_u32(&mut offset);
        let timestamp: u32 = self.parse_u32(&mut offset);
        let window: u32 = self.parse_u32(&mut offset);
        let xmit: u32 = self.parse_u32(&mut offset);
        let una: u32 = self.parse_u32(&mut offset);
        let seq: u32 = self.parse_u32(&mut offset);
        let cmd: u8 = self.parse_u8(&mut offset);
        if !(cmd >= CMD_SYN && cmd <= CMD_HEARTBEAT_ACK) {
            return false;
        }
        self.payload = (self.size - UCP_PACKET_META_SIZE) as u16;
        self.session_id = session_id;
        self.timestamp = timestamp;
        self.window = window;
        self.xmit = xmit;
        self.una = una;
        self.seq = seq;
        self.cmd = cmd;
        proof {
            let bytes = self.packed();
            assert(self@.payload =~= bytes.subrange(
                UCP_PACKET_META_SIZE as int,
                bytes.len() as int,
            ));
            assert(self@ == fields_of(bytes));
        }
        true
    }

    /// Decodes the datagram into the header fields and the payload length.
    /// Returns whether it is a valid packet; an invalid one leaves the
    /// packet as it was.
    pub fn parse(&mut self) -> (ok: bool)
        ensures
            ok == decoded(old(self).packed()).is_some(),
            ok ==> decoded(old(self).packed()) == Some(final(self)@),
            !ok ==> *final(self) == *old(self),
            final(self).spec_size() == old(self).spec_size(),
            final(self).buffer() == old(self).buffer(),
    {
        if !self.is_legal() {
            return false;
        }
        self.parse_fields()
    }

    /// Encodes the header fields in front of the payload and the checksum
    /// in front of both; the datagram is then `29 + payload` bytes long.
    pub fn pack(&mut self)
        ensures
            final(self)@ == old(self)@,
            final(self).packed() == wire_bytes(old(self)@),
            final(self).spec_size() == UCP_PACKET_META_SIZE + old(self)@.payload.len(),
            final(self).buffer().skip(final(self).spec_size() as int) == old(self).buffer().skip(
                final(self).spec_size() as int,
            ),
            final(self).buffer().len() == UCP_PACKET_MAX_SIZE,
    {
        proof {
            use_type_invariant(&*self);
        }
        let ghost before = *self;
        let session_id: u32 = self.session_id;
        let timestamp: u32 = self.timestamp;
        let window: u32 = self.window;
        let xmit: u32 = self.xmit;
        let una: u32 = self.una;
        let seq: u32 = self.seq;
        let cmd: u8 = self.cmd;
        self.put_u32(4, session_id);
        self.put_u32(8, timestamp);
        self.put_u32(12, window);
        self.put_u32(16, xmit);
        self.put_u32(20, una);
        self.put_u32(24, seq);
        self.put_u8(28, cmd);
        self.size = self.payload as usize + UCP_PACKET_META_SIZE;
        let ghost body = self.buf@.subrange(4, self.size as int);
        proof {
            assert(self@.payload =~= before@.payload);
            assert(self@ == before@);
            assert(body_layout(body, before@));
            lemma_body_layout(body, before@);
        }
        let rest = slice_subrange(self.buf.as_slice(), 4, self.size);
        assert(rest@ == body);
        let digest: u32 = checksum_ieee(rest);
        self.write_checksum(digest);
        proof {
            assert(self@.payload =~= before@.payload);
            assert(self.packed() =~= be_bytes(digest) + body);
            assert(self.buffer().skip(self.spec_size() as int) =~= before.buffer().skip(
                self.spec_size() as int,
            ));
        }
    }

    /// The datagram bytes.
    pub fn packed_buffer(&self) -> (r: &[u8])
        ensures
            r@ == self.packed(),
    {
        proof {
            use_type_invariant(self);
        }
        slice_subrange(self.buf.as_slice(), 0, self.size)
    }

    /// Whether the packet opens a handshake.
    pub fn is_syn(&self) -> (r: bool)
        ensures
            r == (self@.cmd == CMD_SYN),
    {
        self.cmd == CMD_SYN
    }

    /// How many more payload bytes the packet can take.
    pub fn remaining_load(&self) -> (n: usize)
        ensures
            n == UCP_PAYLOAD_MAX - self@.payload.len(),
    {
        proof {
            use_type_invariant(self);
        }
        self.buf.len() - self.payload as usize - UCP_PACKET_META_SIZE
    }

    /// Where the payload begins in the buffer.
    pub fn payload_start(&self) -> (r: isize)
        ensures
            r == UCP_PACKET_META_SIZE,
    {
        UCP_PACKET_META_SIZE as isize
    }

    /// Where the payload ends in the buffer: the place of the next byte
    /// written to it.
    pub fn payload_offset(&self) -> (r: isize)
        ensures
            r == UCP_PACKET_META_SIZE + self@.payload.len(),
    {
        proof {
            use_type_invariant(self);
        }
        (self.payload as usize + UCP_PACKET_META_SIZE) as isize
    }

    /// Appends `u` to the payload as a big-endian word, if four more bytes
    /// fit. Returns whether they did; if not, nothing changes.
    pub fn payload_write_u32(&mut self, u: u32) -> (ok: bool)
        ensures
            ok == (old(self)@.payload.len() + 4 <= UCP_PAYLOAD_MAX),
            ok ==> final(self)@ == (PacketView {
                payload: old(self)@.payload + be_bytes(u),
                ..old(self)@
            }),
            ok ==> final(self).buffer() == old(self).buffer().take(
                UCP_PACKET_META_SIZE + old(self)@.payload.len(),
            ) + be_bytes(u) + old(self).buffer().skip(
                UCP_PACKET_META_SIZE + old(self)@.payload.len() + 4,
            ),
            !ok ==> *final(self) == *old(self),
            final(self).spec_size() == old(self).spec_size(),
    {
        proof {
            use_type_invariant(&*self);
        }
        if self.remaining_load() >= 4 {
            let ghost before = *self;
            let at: usize = self.payload as usize + UCP_PACKET_META_SIZE;
            self.put_u32(at, u);
            self.payload += 4;
            assert(self@.payload =~= before@.payload + be_bytes(u));
            assert(self.buffer() =~= before.buffer().take(at as int) + be_bytes(u)
                + before.buffer().skip(at + 4));
            true
        } else {
            false
        }
    }

    /// Appends `buf` to the payload, if it fits. Returns whether it did; if
    /// not, nothing changes.
    pub fn payload_write_slice(&mut self, buf: &[u8]) -> (ok: bool)
        ensures
            ok == (old(self)@.payload.len() + buf@.len() <= UCP_PAYLOAD_MAX),
            ok ==> final(self)@ == (PacketView {
                payload: old(self)@.payload + buf@,
                ..old(self)@
            }),
            ok ==> final(self).buffer() == old(self).buffer().take(
                UCP_PACKET_META_SIZE + old(self)@.payload.len(),
            ) + buf@ + old(self).buffer().skip(
                UCP_PACKET_META_SIZE + old(self)@.payload.len() + buf@.len(),
            ),
            !ok ==> *final(self) == *old(self),
            final(self).spec_size() == old(self).spec_size(),
    {
        proof {
            use_type_invariant(&*self);
        }
        if self.remaining_load() >= buf.len() {
            let ghost before = *self;
            let offset: usize = self.payload_offset() as usize;
            let n: usize = buf.len();
            let mut i: usize = 0;
            while i < n
                invariant
                    n == buf@.len(),
                    offset == UCP_PACKET_META_SIZE + before.payload,
                    offset + n <= UCP_PACKET_MAX_SIZE,
                    i <= n,
                    self.same_fields(before),
                    self.size == before.size,
                    before.size <= UCP_PACKET_MAX_SIZE,
                    before.payload <= UCP_PAYLOAD_MAX,
                    forall|k: int| 0 <= k < offset ==> self.buf@[k] == before.buf@[k],
                    forall|k: int| offset + i <= k < 1400 ==> self.buf@[k] == before.buf@[k],
                    forall|k: int| 0 <= k < i ==> self.buf@[offset + k] == buf@[k],
                decreases n - i,
            {
                self.buf[offset + i] = buf[i];
                i = i + 1;
            }
            self.payload += n as u16;
            assert(self@.payload =~= before@.payload + buf@);
            assert(self.buffer() =~= before.buffer().take(offset as int) + buf@
                + before.buffer().skip(offset + n));
            true
        } else {
            false
        }
    }

    /// The session the packet belongs to.
    pub fn session_id(&self) -> (r: u32)
        ensures
            r == self@.session_id,
    {
        self.session_id
    }

    /// The sender's clock when the packet was sent, in milliseconds.
    pub fn timestamp(&self) -> (r: u32)
        ensures
            r == self@.timestamp,
    {
        self.timestamp
    }

    /// The receive window that the sender advertises.
    pub fn window(&self) -> (r: u32)
        ensures
            r == self@.window,
    {
        self.window
    }

    /// How many times the packet was sent again.
    pub fn xmit(&self) -> (r: u32)
        ensures
            r == self@.xmit,
    {
        self.xmit
    }

    /// The sender's cumulative acknowledgment.
    pub fn una(&self) -> (r: u32)
        ensures
            r == self@.una,
    {
        self.una
    }

    /// The packet's sequence number.
    pub fn seq(&self) -> (r: u32)
        ensures
            r == self@.seq,
    {
        self.seq
    }

    /// The command code.
    pub fn cmd(&self) -> (r: u8)
        ensures
            r == self@.cmd,
    {
        self.cmd
    }

    /// The length of the payload.
    pub fn payload_len(&self) -> (n: usize)
        ensures
            n == self@.payload.len(),
            n <= UCP_PAYLOAD_MAX,
    {
        proof {
            use_type_invariant(self);
        }
        self.payload as usize
    }

    /// The payload bytes.
    pub fn payload_slice(&self) -> (r: &[u8])
        ensures
            r@ == self@.payload,
    {
        proof {
            use_type_invariant(self);
        }
        slice_subrange(
            self.buf.as_slice(),
            UCP_PACKET_META_SIZE,
            UCP_PACKET_META_SIZE + self.payload as usize,
        )
    }

    /// The length of the datagram.
    pub fn size(&self) -> (n: usize)
        ensures
            n == self.spec_size(),
            n <= UCP_PACKET_MAX_SIZE,
    {
        proof {
            use_type_invariant(self);
        }
        self.size
    }

    /// Stamps the packet for a transmission at `timestamp`, the `xmit`-th
    /// after the first.
    pub fn stamp(&mut self, timestamp: u32, xmit: u32)
        ensures
            final(self)@ == (PacketView { timestamp, xmit, ..old(self)@ }),
            final(self).buffer() == old(self).buffer(),
            final(self).spec_size() == old(self).spec_size(),
    {
        proof {
            use_type_invariant(&*self);
        }
        self.timestamp = timestamp;
        self.xmit = xmit;
    }
}

/// Decodes a datagram: `None` where it is too short or too long, where its
/// checksum does not hold, or where its command is none of the six.
pub fn decode(data: &[u8]) -> (r: Option<UcpPacket>)
    ensures
        r.is_some() == decoded(data@).is_some(),
        r.is_some() ==> decoded(data@) == Some(r.unwrap()@) && r.unwrap().packed() == data@,
{
    match UcpPacket::from_bytes(data) {
        None => None,
        Some(p) => {
            let mut p = p;
            if p.parse() {
                Some(p)
            } else {
                None
            }
        },
    }
}

/// Encodes a packet into the datagram that carries it.
pub fn encode(packet: &mut UcpPacket) -> (r: Vec<u8>)
    ensures
        r@ == wire_bytes(old(packet)@),
        final(packet)@ == old(packet)@,
        final(packet).packed() == r@,
{
    packet.pack();
    vstd::slice::slice_to_vec(packet.packed_buffer())
}

} // verus!
