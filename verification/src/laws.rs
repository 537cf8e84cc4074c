//! What holds of the codec and of the connection as a whole, beyond what
//! each operation promises by itself.

use vstd::prelude::*;
use crate::bytes::{be_bytes, word_at, wrap_sub};
use crate::bytes::{lemma_bytes_of_word, lemma_word_of_bytes};
use crate::invariants::{lemma_find_seq, lemma_held_slot, lemma_process_ack_wf, lemma_recv_wf};
use crate::clock::Moment;
use crate::endpoint::Endpoint;
use crate::model::{
    find_seq, held_slot, payloads, smoothed, AckEntry, StreamView, UcpState,
};
use crate::packet::{
    crc32_ieee, decoded, fields_of, is_command, legal_bytes, lemma_body_layout,
    lemma_holds_word, wire_body, wire_bytes, PacketView, CMD_ACK, CMD_DATA, CMD_SYN,
    CMD_SYN_ACK,
    UCP_PACKET_META_SIZE, UCP_PAYLOAD_MAX,
};

verus! {

/// Decoding what was encoded gives the packet back: every header field and
/// every payload byte, for each of the six commands and each payload of
/// 1 to 1371 bytes.
pub proof fn lemma_decode_encode(p: PacketView)
    requires
        is_command(p.cmd),
        1 <= p.payload.len() <= UCP_PAYLOAD_MAX,
    ensures
        decoded(wire_bytes(p)) == Some(p),
{
    let body = wire_body(p);
    let crc = crc32_ieee(body);
    let b = wire_bytes(p);
    lemma_body_layout(body, p);
    assert(b.len() == 29 + p.payload.len());
    assert(b.subrange(4, b.len() as int) =~= body);
    lemma_word_of_bytes(crc);
    assert(word_at(b, 0) == crc);
    assert(legal_bytes(b));
    assert forall|i: int| 0 <= i < body.len() implies b[4 + i] == body[i] by {}
    lemma_holds_word(b, 4, p.session_id);
    lemma_holds_word(b, 8, p.timestamp);
    lemma_holds_word(b, 12, p.window);
    lemma_holds_word(b, 16, p.xmit);
    lemma_holds_word(b, 20, p.una);
    lemma_holds_word(b, 24, p.seq);
    assert(b[4] == body[0] && b[5] == body[1] && b[6] == body[2] && b[7] == body[3]);
    assert(b[8] == body[4] && b[9] == body[5] && b[10] == body[6] && b[11] == body[7]);
    assert(b[12] == body[8] && b[13] == body[9] && b[14] == body[10] && b[15] == body[11]);
    assert(b[16] == body[12] && b[17] == body[13] && b[18] == body[14] && b[19] == body[15]);
    assert(b[20] == body[16] && b[21] == body[17] && b[22] == body[18] && b[23] == body[19]);
    assert(b[24] == body[20] && b[25] == body[21] && b[26] == body[22] && b[27] == body[23]);
    assert(b[28] == body[24]);
    assert(b.subrange(UCP_PACKET_META_SIZE as int, b.len() as int) =~= p.payload);
    assert(fields_of(b) == p);
}

/// A datagram whose command is none of the six is rejected, whatever its
/// checksum.
pub proof fn lemma_unknown_command_rejected(bytes: Seq<u8>)
    requires
        bytes.len() > 28,
        !is_command(bytes[28]),
    ensures
        decoded(bytes).is_none(),
{
}

/// A datagram of 29 bytes or fewer, or of more than 1400, is rejected.
pub proof fn lemma_bad_length_rejected(bytes: Seq<u8>)
    requires
        bytes.len() <= 29 || bytes.len() > 1400,
    ensures
        decoded(bytes).is_none(),
{
}

/// Changing the checksum field of a valid datagram, and nothing else, makes
/// it invalid.
pub proof fn lemma_checksum_field_guards(good: Seq<u8>, bad: Seq<u8>)
    requires
        legal_bytes(good),
        bad.len() == good.len(),
        forall|i: int| 4 <= i < good.len() ==> bad[i] == good[i],
        exists|i: int| 0 <= i < 4 && bad[i] != good[i],
    ensures
        !legal_bytes(bad),
        decoded(bad).is_none(),
{
    assert(bad.subrange(4, bad.len() as int) =~= good.subrange(4, good.len() as int));
    lemma_bytes_of_word(good[0], good[1], good[2], good[3]);
    lemma_bytes_of_word(bad[0], bad[1], bad[2], bad[3]);
    assert(word_at(bad, 0) != word_at(good, 0));
}

/// A change behind the checksum field of a valid datagram goes unnoticed
/// exactly when the changed bytes have the checksum of the bytes they
/// replace.
pub proof fn lemma_body_change_detected(good: Seq<u8>, bad: Seq<u8>)
    requires
        legal_bytes(good),
        bad.len() == good.len(),
        forall|i: int| 0 <= i < 4 ==> bad[i] == good[i],
    ensures
        legal_bytes(bad) <==> crc32_ieee(bad.subrange(4, bad.len() as int)) == crc32_ieee(
            good.subrange(4, good.len() as int),
        ),
{
    assert(word_at(bad, 0) == word_at(good, 0));
}

/// The timeout after `n` acknowledgments that each measured a round trip of
/// `rtt`.
pub open spec fn rto_after(rto: u32, rtt: u32, n: nat) -> u32
    decreases n,
{
    if n == 0 {
        rto
    } else {
        smoothed(rto_after(rto, rtt, (n - 1) as nat), rtt)
    }
}

/// The distance between a timeout and a round trip.
pub open spec fn rto_gap(rto: u32, rtt: u32) -> nat {
    if rto >= rtt {
        (rto - rtt) as nat
    } else {
        (rtt - rto) as nat
    }
}

/// Two to the power `n`.
pub open spec fn two_to(n: nat) -> nat
    decreases n,
{
    if n == 0 {
        1
    } else {
        2 * two_to((n - 1) as nat)
    }
}

/// An acknowledgment that retires a packet moves the timeout to the mean of
/// its old value and the round trip measured.
pub proof fn lemma_ack_smooths_rto(s: StreamView, seq: u32, timestamp: u32, ts: u32)
    requires
        s.acks(seq),
    ensures
        s.process_ack(seq, timestamp, ts).rto == smoothed(s.rto, wrap_sub(ts, timestamp)),
{
}

/// One measurement moves the timeout toward the round trip and never past
/// it: the gap between them halves, rounded up where the timeout lay below.
pub proof fn lemma_rto_step(rto: u32, rtt: u32)
    ensures
        rto >= rtt ==> rtt <= smoothed(rto, rtt) <= rto,
        rto < rtt ==> rto <= smoothed(rto, rtt) < rtt,
        2 * rto_gap(smoothed(rto, rtt), rtt) <= rto_gap(rto, rtt) + 1,
{
}

/// A timeout between half the round trip and twice the round trip stays
/// there.
pub proof fn lemma_rto_stays_in_band(rto: u32, rtt: u32, n: nat)
    requires
        rtt / 2 <= rto <= 2 * rtt,
    ensures
        rtt / 2 <= rto_after(rto, rtt, n) <= 2 * rtt,
    decreases n,
{
    if n > 0 {
        lemma_rto_stays_in_band(rto, rtt, (n - 1) as nat);
        lemma_rto_step(rto_after(rto, rtt, (n - 1) as nat), rtt);
    }
}

/// After `n` measurements of one round trip the gap between the timeout and
/// the round trip is at most one more than the `2^n`-th part of what it was.
pub proof fn lemma_rto_gap_shrinks(rto: u32, rtt: u32, n: nat)
    ensures
        rto_gap(rto_after(rto, rtt, n), rtt) * two_to(n) <= rto_gap(rto, rtt) + two_to(n),
        rto >= rtt ==> rto_after(rto, rtt, n) >= rtt,
        rto <= rtt ==> rto_after(rto, rtt, n) <= rtt,
    decreases n,
{
    if n > 0 {
        let m = (n - 1) as nat;
        let prev = rto_after(rto, rtt, m);
        lemma_rto_gap_shrinks(rto, rtt, m);
        lemma_rto_step(prev, rtt);
        let g = rto_gap(rto_after(rto, rtt, n), rtt);
        let h = rto_gap(prev, rtt);
        let t = two_to(m);
        assert(2 * g <= h + 1);
        assert(h * t <= rto_gap(rto, rtt) + t);
        assert(g * (2 * t) <= rto_gap(rto, rtt) + 2 * t) by (nonlinear_arith)
            requires
                2 * g <= h + 1,
                h * t <= rto_gap(rto, rtt) + t,
        ;
        assert(two_to(n) == 2 * t);
    } else {
        assert(two_to(0) == 1);
        assert(rto_after(rto, rtt, 0) == rto);
    }
}

/// Repeated acknowledgments with one round trip `rtt` drive the timeout to
/// `rtt`: after 32 of them, and ever after, it is `rtt` or one below.
pub proof fn lemma_rto_converges(rto: u32, rtt: u32, n: nat)
    requires
        n >= 32,
    ensures
        rtt - 1 <= rto_after(rto, rtt, n) <= rtt,
    decreases n,
{
    if n == 32 {
        lemma_rto_gap_shrinks(rto, rtt, 32);
        reveal_with_fuel(two_to, 33);
        assert(two_to(32) == 0x1_0000_0000);
        let g = rto_gap(rto_after(rto, rtt, 32), rtt);
        assert(g * 0x1_0000_0000 <= rto_gap(rto, rtt) + 0x1_0000_0000);
        assert(g <= 1) by (nonlinear_arith)
            requires
                g * 0x1_0000_0000 <= rto_gap(rto, rtt) + 0x1_0000_0000,
                rto_gap(rto, rtt) < 0x1_0000_0000,
        ;
        if rto >= rtt {
            lemma_rto_from_above(rto, rtt, 32);
            assert(g * 0x1_0000_0000 <= rto_gap(rto, rtt));
            assert(g == 0) by (nonlinear_arith)
                requires
                    g * 0x1_0000_0000 <= rto_gap(rto, rtt),
                    rto_gap(rto, rtt) < 0x1_0000_0000,
            ;
        }
    } else {
        lemma_rto_converges(rto, rtt, (n - 1) as nat);
        lemma_rto_step(rto_after(rto, rtt, (n - 1) as nat), rtt);
    }
}

/// From above, the gap between the timeout and the round trip halves
/// exactly, so that it is gone after 32 measurements.
proof fn lemma_rto_from_above(rto: u32, rtt: u32, n: nat)
    requires
        rto >= rtt,
    ensures
        rto_after(rto, rtt, n) >= rtt,
        rto_gap(rto_after(rto, rtt, n), rtt) * two_to(n) <= rto_gap(rto, rtt),
    decreases n,
{
    if n > 0 {
        let m = (n - 1) as nat;
        let prev = rto_after(rto, rtt, m);
        lemma_rto_from_above(rto, rtt, m);
        let g = rto_gap(rto_after(rto, rtt, n), rtt);
        let h = rto_gap(prev, rtt);
        let t = two_to(m);
        assert(2 * g <= h);
        assert(g * (2 * t) <= rto_gap(rto, rtt)) by (nonlinear_arith)
            requires
                2 * g <= h,
                h * t <= rto_gap(rto, rtt),
        ;
        assert(two_to(n) == 2 * t);
    } else {
        assert(two_to(0) == 1);
        assert(rto_after(rto, rtt, 0) == rto);
    }
}

/// The connection after the application has sent each of `items` in turn: a
/// payload and the connection's clock at that moment.
pub open spec fn sends(s: StreamView, items: Seq<(Seq<u8>, u32)>) -> StreamView
    decreases items.len(),
{
    if items.len() == 0 {
        s
    } else {
        sends(s, items.drop_last()).send(items.last().0, items.last().1)
    }
}

/// How many of `k` further packets the peer's window still takes.
pub open spec fn window_room(s: StreamView, k: nat) -> nat {
    if s.send_queue.len() >= s.remote_window {
        0
    } else if k <= s.remote_window - s.send_queue.len() {
        k
    } else {
        (s.remote_window - s.send_queue.len()) as nat
    }
}

/// Of `k` sends, as many are transmitted and enter the send queue as the
/// peer's window has room for; the rest wait in the send buffer, and none of
/// them is transmitted.
pub proof fn lemma_window_enforced(s: StreamView, items: Seq<(Seq<u8>, u32)>)
    requires
        forall|i: int| 0 <= i < items.len() ==> (#[trigger] items[i]).0.len() <= UCP_PAYLOAD_MAX,
        s.seq + items.len() <= u32::MAX,
    ensures
        sends(s, items).remote_window == s.remote_window,
        sends(s, items).seq == s.seq + items.len(),
        sends(s, items).send_queue.len() == s.send_queue.len() + window_room(s, items.len()),
        sends(s, items).send_buffer.len() == s.send_buffer.len() + items.len() - window_room(
            s,
            items.len(),
        ),
        sends(s, items).outbox.len() == s.outbox.len() + window_room(s, items.len()),
    decreases items.len(),
{
    if items.len() > 0 {
        let front = items.drop_last();
        assert forall|i: int| 0 <= i < front.len() implies (#[trigger] front[i]).0.len()
            <= UCP_PAYLOAD_MAX by {
            assert(front[i] == items[i]);
        }
        lemma_window_enforced(s, front);
        let t = sends(s, front);
        assert(t.accepts(items.last().0));
    }
}

/// From an empty send queue and an empty send buffer, more sends than the
/// peer's window leave exactly the window in the send queue and the
/// remainder in the send buffer, with exactly the window transmitted.
pub proof fn lemma_window_full(s: StreamView, items: Seq<(Seq<u8>, u32)>)
    requires
        s.send_queue.len() == 0,
        s.send_buffer.len() == 0,
        items.len() > s.remote_window,
        forall|i: int| 0 <= i < items.len() ==> (#[trigger] items[i]).0.len() <= UCP_PAYLOAD_MAX,
        s.seq + items.len() <= u32::MAX,
    ensures
        sends(s, items).send_queue.len() == s.remote_window,
        sends(s, items).send_buffer.len() == items.len() - s.remote_window,
        sends(s, items).outbox.len() == s.outbox.len() + s.remote_window,
{
    lemma_window_enforced(s, items);
}

/// The DATA packet that the `i`-th of `items` becomes when they are sent in
/// turn from `s`.
pub open spec fn sent_packet(s: StreamView, items: Seq<(Seq<u8>, u32)>, i: int) -> PacketView {
    PacketView {
        session_id: s.session_id,
        timestamp: items[i].1,
        window: s.local_window,
        xmit: 0,
        una: s.una(),
        seq: (s.seq + 1 + i) as u32,
        cmd: CMD_DATA,
        payload: items[i].0,
    }
}

/// From an empty send queue and an empty send buffer, the sends that the
/// peer's window has room for are the first ones: the send queue holds
/// them in the order in which they were sent, numbered upwards, and exactly
/// their datagrams were transmitted, in that order. The later ones wait in
/// the send buffer, in their order too, and none of them was transmitted.
pub proof fn lemma_window_order(s: StreamView, items: Seq<(Seq<u8>, u32)>)
    requires
        s.send_queue.len() == 0,
        s.send_buffer.len() == 0,
        forall|i: int| 0 <= i < items.len() ==> (#[trigger] items[i]).0.len() <= UCP_PAYLOAD_MAX,
        s.seq + items.len() <= u32::MAX,
    ensures
        sends(s, items).send_queue.len() == window_room(s, items.len()),
        sends(s, items).send_queue.len() + sends(s, items).send_buffer.len() == items.len(),
        forall|i: int|
            0 <= i < sends(s, items).send_queue.len() ==> #[trigger] sends(
                s,
                items,
            ).send_queue[i] == sent_packet(s, items, i),
        forall|j: int|
            0 <= j < sends(s, items).send_buffer.len() ==> #[trigger] sends(
                s,
                items,
            ).send_buffer[j] == sent_packet(s, items, sends(s, items).send_queue.len() + j),
        sends(s, items).outbox.len() == s.outbox.len() + sends(s, items).send_queue.len(),
        forall|i: int|
            0 <= i < s.outbox.len() ==> #[trigger] sends(s, items).outbox[i] == s.outbox[i],
        forall|i: int|
            0 <= i < sends(s, items).send_queue.len() ==> #[trigger] sends(
                s,
                items,
            ).outbox[s.outbox.len() + i] == wire_bytes(sent_packet(s, items, i)),
        sends(s, items).seq == s.seq + items.len(),
        sends(s, items).session_id == s.session_id,
        sends(s, items).local_window == s.local_window,
        sends(s, items).remote_window == s.remote_window,
        sends(s, items).recv_next == s.recv_next,
    decreases items.len(),
{
    if items.len() > 0 {
        let front = items.drop_last();
        let k = front.len() as int;
        assert forall|i: int| 0 <= i < front.len() implies (#[trigger] front[i]).0.len()
            <= UCP_PAYLOAD_MAX by {
            assert(front[i] == items[i]);
        }
        lemma_window_order(s, front);
        let before = sends(s, front);
        let after = sends(s, items);
        assert(before.accepts(items.last().0));
        assert(after == before.send(items.last().0, items.last().1));
        let p = sent_packet(s, items, k);
        assert(p == PacketView {
            payload: items.last().0,
            ..before.new_packet(CMD_DATA, items.last().1)
        });
        assert forall|i: int| 0 <= i < k implies sent_packet(s, front, i) == sent_packet(
            s,
            items,
            i,
        ) by {
            assert(front[i] == items[i]);
        }
        assert forall|i: int| 0 <= i < after.send_queue.len() implies #[trigger] after.send_queue[i]
            == sent_packet(s, items, i) by {
            if i < before.send_queue.len() {
                assert(after.send_queue[i] == before.send_queue[i]);
            }
        }
        assert forall|j: int| 0 <= j < after.send_buffer.len() implies (
        #[trigger] after.send_buffer[j]) == sent_packet(s, items, after.send_queue.len() + j) by {
            if j < before.send_buffer.len() {
                assert(after.send_buffer[j] == before.send_buffer[j]);
            }
        }
        assert forall|i: int| 0 <= i < s.outbox.len() implies #[trigger] after.outbox[i]
            == s.outbox[i] by {
            assert(after.outbox[i] == before.outbox[i]);
        }
        let base = s.outbox.len() as int;
        assert forall|i: int| 0 <= i < after.send_queue.len() implies (
        #[trigger] after.outbox[base + i]) == wire_bytes(sent_packet(s, items, i)) by {
            if i < before.send_queue.len() {
                assert(after.outbox[s.outbox.len() + i] == before.outbox[s.outbox.len() + i]);
            }
        }
    }
}

/// Where no packet of `q` is numbered `seq`, `find_seq` finds none.
pub proof fn lemma_find_seq_absent(q: Seq<PacketView>, from: int, seq: u32)
    requires
        0 <= from,
        forall|i: int| from <= i < q.len() ==> (#[trigger] q[i]).seq != seq,
    ensures
        find_seq(q, from, seq) == q.len(),
    decreases q.len() - from,
{
    if from < q.len() {
        lemma_find_seq_absent(q, from + 1, seq);
    }
}

/// An acknowledgment retires at most one packet, and one that is replayed
/// retires none: once `seq` is acknowledged, acknowledging it again changes
/// nothing.
pub proof fn lemma_ack_replay(s: StreamView, seq: u32, timestamp: u32, ts: u32, again: u32)
    requires
        s.wf(),
    ensures
        s.process_ack(seq, timestamp, ts).send_queue.len() + 1 >= s.send_queue.len(),
        !s.process_ack(seq, timestamp, ts).acks(seq),
        s.process_ack(seq, timestamp, ts).process_ack(seq, timestamp, again) == s.process_ack(
            seq,
            timestamp,
            ts,
        ),
{
    lemma_find_seq(s.send_queue, 0, seq);
    let t = s.process_ack(seq, timestamp, ts);
    let k = find_seq(s.send_queue, 0, seq);
    if s.acks(seq) {
        assert forall|i: int| 0 <= i < t.send_queue.len() implies (#[trigger] t.send_queue[i]).seq
            != seq by {
            if i < k {
                assert(t.send_queue[i] == s.send_queue[i]);
            } else {
                assert(t.send_queue[i] == s.send_queue[i + 1]);
                assert(s.send_queue[k].seq != s.send_queue[i + 1].seq);
            }
        }
        lemma_find_seq_absent(t.send_queue, 0, seq);
    }
}

/// An acknowledgment of one number brings no other number into the send
/// queue.
pub proof fn lemma_ack_keeps_absent(s: StreamView, seq: u32, timestamp: u32, ts: u32, other: u32)
    requires
        !s.acks(other),
    ensures
        !s.process_ack(seq, timestamp, ts).acks(other),
{
    lemma_find_seq(s.send_queue, 0, seq);
    lemma_find_seq(s.send_queue, 0, other);
    let t = s.process_ack(seq, timestamp, ts);
    let k = find_seq(s.send_queue, 0, seq);
    if s.acks(seq) {
        assert forall|i: int| 0 <= i < t.send_queue.len() implies (#[trigger] t.send_queue[i]).seq
            != other by {
            if i < k {
                assert(t.send_queue[i] == s.send_queue[i]);
            } else {
                assert(t.send_queue[i] == s.send_queue[i + 1]);
            }
        }
        lemma_find_seq_absent(t.send_queue, 0, other);
    }
}

/// Processing acknowledgments brings no number into the send queue.
pub proof fn lemma_ack_pairs_keep_absent(
    s: StreamView,
    payload: Seq<u8>,
    k: int,
    ts: u32,
    other: u32,
)
    requires
        !s.acks(other),
    ensures
        !s.process_ack_pairs(payload, k, ts).acks(other),
    decreases payload.len() - 8 * k,
{
    if !(k < 0 || 8 * k + 8 > payload.len()) {
        let seq = word_at(payload, 8 * k);
        let timestamp = word_at(payload, 8 * k + 4);
        lemma_ack_keeps_absent(s, seq, timestamp, ts, other);
        lemma_ack_pairs_keep_absent(
            s.process_ack(seq, timestamp, ts),
            payload,
            k + 1,
            ts,
            other,
        );
    }
}

/// Once the acknowledgments of a payload are processed from the `k`-th pair
/// on, none of the numbers they name is left in the send queue.
pub proof fn lemma_ack_pairs_retire_all(s: StreamView, payload: Seq<u8>, k: int, ts: u32)
    requires
        s.wf(),
        k >= 0,
    ensures
        forall|j: int|
            k <= j && 8 * j + 8 <= payload.len() ==> !s.process_ack_pairs(payload, k, ts).acks(
                #[trigger] word_at(payload, 8 * j),
            ),
    decreases payload.len() - 8 * k,
{
    if !(8 * k + 8 > payload.len()) {
        let seq = word_at(payload, 8 * k);
        let timestamp = word_at(payload, 8 * k + 4);
        let t = s.process_ack(seq, timestamp, ts);
        lemma_ack_replay(s, seq, timestamp, ts, ts);
        lemma_process_ack_wf(s, seq, timestamp, ts);
        lemma_ack_pairs_retire_all(t, payload, k + 1, ts);
        lemma_ack_pairs_keep_absent(t, payload, k + 1, ts, seq);
    }
}

/// Acknowledgments that name nothing in the send queue change nothing.
pub proof fn lemma_stale_ack_pairs(s: StreamView, payload: Seq<u8>, k: int, ts: u32)
    requires
        k >= 0,
        forall|j: int|
            k <= j && 8 * j + 8 <= payload.len() ==> !s.acks(#[trigger] word_at(payload, 8 * j)),
    ensures
        s.process_ack_pairs(payload, k, ts) == s,
    decreases payload.len() - 8 * k,
{
    if !(8 * k + 8 > payload.len()) {
        assert(!s.acks(word_at(payload, 8 * k)));
        lemma_stale_ack_pairs(s, payload, k + 1, ts);
    }
}

/// Replaying an ACK payload changes nothing: what it could retire, its
/// first arrival retired.
pub proof fn lemma_ack_payload_replay(s: StreamView, payload: Seq<u8>, ts: u32, again: u32)
    requires
        s.wf(),
    ensures
        s.process_ack_pairs(payload, 0, ts).process_ack_pairs(payload, 0, again)
            == s.process_ack_pairs(payload, 0, ts),
{
    lemma_ack_pairs_retire_all(s, payload, 0, ts);
    lemma_stale_ack_pairs(s.process_ack_pairs(payload, 0, ts), payload, 0, again);
}

/// The payloads of two runs of packets, one after the other, are the
/// payloads of the first run followed by those of the second.
pub proof fn lemma_payloads_concat(a: Seq<PacketView>, b: Seq<PacketView>)
    ensures
        payloads(a + b) == payloads(a) + payloads(b),
    decreases a.len(),
{
    if a.len() == 0 {
        assert(a + b =~= b);
        assert(payloads(a) + payloads(b) =~= payloads(b));
    } else {
        lemma_payloads_concat(a.drop_first(), b);
        assert((a + b).drop_first() =~= a.drop_first() + b);
        assert(payloads(a + b) =~= payloads(a) + payloads(b));
    }
}

/// Counting packets as ready changes neither the receive queue nor what the
/// application took of its first packet.
pub proof fn lemma_absorb_shape(s: StreamView)
    ensures
        s.absorb().recv_queue == s.recv_queue,
        s.absorb().recv_offset == s.recv_offset,
        s.absorb().recv_ready >= s.recv_ready,
        s.absorb().recv_ready <= s.recv_queue.len() || s.absorb().recv_ready == s.recv_ready,
        s.absorb().recv_next - s.recv_next == s.absorb().recv_ready - s.recv_ready,
    decreases s.recv_queue.len() - s.recv_ready,
{
    if s.recv_ready < s.recv_queue.len() && s.recv_queue[s.recv_ready as int].seq == s.recv_next {
        lemma_absorb_shape(
            StreamView { recv_ready: s.recv_ready + 1, recv_next: s.recv_next + 1, ..s },
        );
    }
}

/// The packets ready for the application are numbered consecutively, in
/// the order in which it gets them.
pub proof fn lemma_ready_in_sequence(s: StreamView, i: int)
    requires
        s.wf(),
        0 <= i,
        i + 1 < s.recv_ready,
    ensures
        s.recv_queue[i + 1].seq == s.recv_queue[i].seq + 1,
{
    assert(s.recv_queue[i].seq + (s.recv_ready - i) == s.recv_next);
    assert(s.recv_queue[i + 1].seq + (s.recv_ready - (i + 1)) == s.recv_next);
}

/// A DATA packet that arrives out of sequence is withheld: the application
/// can take no byte more than before, and the next number expected stays.
pub proof fn lemma_out_of_sequence_withheld(s: StreamView, p: PacketView)
    requires
        s.wf(),
        p.seq != s.recv_next,
    ensures
        s.process_data(p).readable() == s.readable(),
        s.process_data(p).recv_ready == s.recv_ready,
        s.process_data(p).recv_next == s.recv_next,
{
    if p.seq >= s.recv_next && p.seq - s.recv_next < s.local_window {
        lemma_held_slot(s.recv_queue, s.recv_ready as int, p.seq);
        let k = held_slot(s.recv_queue, s.recv_ready as int, p.seq);
        if !(k < s.recv_queue.len() && s.recv_queue[k].seq == p.seq) {
            let t = StreamView {
                recv_queue: s.recv_queue.insert(k, p),
                ack_list: s.ack_list.push(
                    AckEntry { seq: p.seq, timestamp: p.timestamp },
                ),
                ..s
            };
            if k > s.recv_ready {
                assert(t.recv_queue[s.recv_ready as int] == s.recv_queue[s.recv_ready as int]);
            }
            assert(t.absorb() == t);
            assert(t.recv_queue.take(t.recv_ready as int) =~= s.recv_queue.take(
                s.recv_ready as int,
            ));
        }
    }
}

/// The DATA packet that the connection waits for makes its payload
/// readable behind what was readable before, followed by the payloads of
/// the held packets that it connects to, in sequence.
pub proof fn lemma_in_sequence_delivers(s: StreamView, p: PacketView)
    requires
        s.wf(),
        p.seq == s.recv_next,
    ensures
        s.process_data(p).recv_queue == s.recv_queue.insert(s.recv_ready as int, p),
        s.recv_ready < s.process_data(p).recv_ready <= s.process_data(p).recv_queue.len(),
        s.process_data(p).recv_next - s.recv_next == s.process_data(p).recv_ready - s.recv_ready,
        s.process_data(p).readable() == s.readable() + payloads(
            s.process_data(p).recv_queue.subrange(
                s.recv_ready as int,
                s.process_data(p).recv_ready as int,
            ),
        ),
{
    lemma_held_slot(s.recv_queue, s.recv_ready as int, p.seq);
    let k = held_slot(s.recv_queue, s.recv_ready as int, p.seq);
    if k > s.recv_ready {
        assert(s.recv_queue[s.recv_ready as int].seq < p.seq);
    }
    assert(k == s.recv_ready);
    let t = StreamView {
        recv_queue: s.recv_queue.insert(k, p),
        ack_list: s.ack_list.push(AckEntry { seq: p.seq, timestamp: p.timestamp }),
        ..s
    };
    assert(t.recv_queue[k] == p);
    let t1 = StreamView { recv_ready: t.recv_ready + 1, recv_next: t.recv_next + 1, ..t };
    assert(t.absorb() == t1.absorb());
    lemma_absorb_shape(t1);
    let r = t.absorb();
    assert(s.process_data(p) == r);
    let ready = s.recv_queue.take(s.recv_ready as int);
    let fresh = r.recv_queue.subrange(s.recv_ready as int, r.recv_ready as int);
    assert(r.recv_queue.take(r.recv_ready as int) =~= ready + fresh);
    lemma_payloads_concat(ready, fresh);
    if s.recv_ready > 0 {
        assert(ready[0] == s.recv_queue[0]);
        assert(payloads(ready).len() >= ready[0].payload.len());
    }
    assert((payloads(ready) + payloads(fresh)).skip(s.recv_offset as int) =~= payloads(
        ready,
    ).skip(s.recv_offset as int) + payloads(fresh));
}

/// The application gets the readable bytes in order: a call that takes up
/// to `capacity` bytes gets the first of them, as many as there are or as
/// it asked for, and leaves the rest readable.
pub proof fn lemma_recv_takes_prefix(s: StreamView, capacity: nat)
    requires
        s.wf(),
    ensures
        capacity <= s.readable().len() ==> s.recv_bytes(capacity) == s.readable().take(
            capacity as int,
        ) && s.recv(capacity).readable() == s.readable().skip(capacity as int),
        capacity > s.readable().len() ==> s.recv_bytes(capacity) == s.readable() && s.recv(
            capacity,
        ).readable().len() == 0,
    decreases s.recv_ready,
{
    let ready = s.recv_queue.take(s.recv_ready as int);
    if s.recv_ready == 0 {
        assert(ready =~= Seq::<PacketView>::empty());
        assert(s.readable() =~= Seq::<u8>::empty());
        assert(s.recv_bytes(capacity) =~= s.readable().take(0));
    } else if capacity == 0 {
        assert(s.recv_bytes(capacity) =~= s.readable().take(0));
        assert(s.readable().skip(0) =~= s.readable());
    } else {
        let first = s.recv_queue[0].payload;
        let avail = (first.len() - s.recv_offset) as nat;
        let t = StreamView {
            recv_queue: s.recv_queue.drop_first(),
            recv_ready: (s.recv_ready - 1) as nat,
            recv_offset: 0,
            ..s
        };
        let rest = payloads(t.recv_queue.take(t.recv_ready as int));
        assert(ready[0] == s.recv_queue[0]);
        assert(ready.drop_first() =~= t.recv_queue.take(t.recv_ready as int));
        assert(payloads(ready) == first + rest);
        assert(t.readable() =~= rest);
        assert(s.readable() =~= first.skip(s.recv_offset as int) + rest);
        if avail <= capacity {
            lemma_recv_wf(s, capacity);
            assert(t.wf()) by {
                lemma_drop_ready_wf(s);
            }
            lemma_recv_takes_prefix(t, (capacity - avail) as nat);
            if capacity <= s.readable().len() {
                assert(s.recv_bytes(capacity) =~= s.readable().take(capacity as int));
                assert(s.recv(capacity).readable() =~= s.readable().skip(capacity as int));
            } else {
                assert(s.recv_bytes(capacity) =~= s.readable());
            }
        } else {
            assert(s.recv_bytes(capacity) =~= s.readable().take(capacity as int));
            let u = StreamView { recv_offset: s.recv_offset + capacity, ..s };
            assert(u.readable() =~= s.readable().skip(capacity as int));
        }
    }
}

/// Dropping the first ready packet, once the application has taken all of
/// it, keeps the connection well formed.
pub proof fn lemma_drop_ready_wf(s: StreamView)
    requires
        s.wf(),
        s.recv_ready > 0,
    ensures
        (StreamView {
            recv_queue: s.recv_queue.drop_first(),
            recv_ready: (s.recv_ready - 1) as nat,
            recv_offset: 0,
            ..s
        }).wf(),
{
    let t = StreamView {
        recv_queue: s.recv_queue.drop_first(),
        recv_ready: (s.recv_ready - 1) as nat,
        recv_offset: 0,
        ..s
    };
    assert forall|i: int| 0 <= i < t.recv_queue.len() implies #[trigger] t.recv_queue[i]
        == s.recv_queue[i + 1] by {}
    assert forall|i: int| 0 <= i < t.recv_ready implies (#[trigger] t.recv_queue[i]).seq + (
    t.recv_ready - i) == t.recv_next by {
        assert(s.recv_queue[i + 1].seq + (s.recv_ready - (i + 1)) == s.recv_next);
    }
    assert forall|i: int| t.recv_ready <= i < t.recv_queue.len() implies t.recv_next <= (
    #[trigger] t.recv_queue[i]).seq && t.recv_queue[i].seq - t.recv_next < t.local_window
        && t.recv_next != t.recv_queue[i].seq by {
        assert(s.recv_next <= s.recv_queue[i + 1].seq);
    }
    assert forall|i: int, j: int| t.recv_ready <= i < j < t.recv_queue.len() implies (
    #[trigger] t.recv_queue[i]).seq < (#[trigger] t.recv_queue[j]).seq by {
        assert(s.recv_queue[i + 1].seq < s.recv_queue[j + 1].seq);
    }
}

/// After 32 measurements of one round trip, and ever after, the timeout
/// lies between half the round trip and twice the round trip.
pub proof fn lemma_rto_settles_in_band(rto: u32, rtt: u32, n: nat)
    requires
        n >= 32,
    ensures
        rtt / 2 <= rto_after(rto, rtt, n) <= 2 * rtt,
{
    lemma_rto_converges(rto, rtt, n);
}

/// The ACK with which a connecting side answers the SYN_ACK `p` at `ts`.
pub open spec fn handshake_ack(s: StreamView, p: PacketView, ts: u32) -> PacketView {
    PacketView {
        payload: be_bytes(p.seq) + be_bytes(p.timestamp),
        ..(StreamView { recv_next: (p.seq + 1) as nat, ..s }).new_ack_packet(ts)
    }
}

/// On a channel that loses nothing, a fresh client that asks to connect
/// and a fresh server are both established after three datagrams: the
/// client's SYN, the server's SYN_ACK and the client's ACK. Whatever the
/// session and the times.
pub proof fn lemma_handshake_completes(
    client_addr: Endpoint,
    server_addr: Endpoint,
    session_id: u32,
    client_epoch: Moment,
    server_epoch: Moment,
    t0: u32,
    t1: u32,
    t2: u32,
    t3: u32,
)
    ensures
        ({
            let c0 = StreamView::fresh(server_addr, client_epoch).connecting(session_id, t0);
            let syn = c0.send_queue[0];
            let s1 = StreamView::fresh(client_addr, server_epoch).process_packet(
                syn,
                client_addr,
                t1,
            );
            let syn_ack = s1.send_queue[0];
            let c1 = c0.process_packet(syn_ack, server_addr, t2);
            let ack = handshake_ack(c0, syn_ack, t2);
            let s2 = s1.process_packet(ack, client_addr, t3);
            &&& c0.state == UcpState::CONNECTING
            &&& c0.outbox == seq![wire_bytes(syn)]
            &&& syn.cmd == CMD_SYN && syn.seq == 1 && syn.session_id == session_id
            &&& s1.state == UcpState::ACCEPTING
            &&& s1.outbox == seq![wire_bytes(syn_ack)]
            &&& syn_ack.cmd == CMD_SYN_ACK && syn_ack.session_id == session_id
            &&& c1.state == UcpState::ESTABLISHED
            &&& c1.outbox == seq![wire_bytes(syn), wire_bytes(ack)]
            &&& c1.send_queue.len() == 0
            &&& ack.cmd == CMD_ACK
            &&& s2.state == UcpState::ESTABLISHED
            &&& s2.outbox == s1.outbox
            &&& s2.send_queue.len() == 0
        }),
{
    let c0 = StreamView::fresh(server_addr, client_epoch).connecting(session_id, t0);
    let syn = c0.send_queue[0];
    let s1 = StreamView::fresh(client_addr, server_epoch).process_packet(syn, client_addr, t1);
    let syn_ack = s1.send_queue[0];
    let c1 = c0.process_packet(syn_ack, server_addr, t2);
    let ack = handshake_ack(c0, syn_ack, t2);
    let s2 = s1.process_packet(ack, client_addr, t3);
    assert(c0.outbox =~= seq![wire_bytes(syn)]);
    assert(s1.outbox =~= seq![wire_bytes(syn_ack)]);
    lemma_echo_words(syn.seq, syn.timestamp);
    lemma_echo_words(syn_ack.seq, syn_ack.timestamp);
    assert(find_seq(c0.send_queue, 0, 1) == 0);
    assert(c0.acks(1));
    assert(c1.send_queue =~= Seq::<PacketView>::empty());
    assert(c1.outbox =~= seq![wire_bytes(syn), wire_bytes(ack)]);
    assert(find_seq(s1.send_queue, 0, 1) == 0);
    assert(s1.acks(1));
    assert(s2.send_queue =~= Seq::<PacketView>::empty());
}

/// An echo of a sequence number and a timestamp is eight bytes that hold
/// the two as words.
pub proof fn lemma_echo_words(seq: u32, timestamp: u32)
    ensures
        (be_bytes(seq) + be_bytes(timestamp)).len() == 8,
        word_at(be_bytes(seq) + be_bytes(timestamp), 0) == seq,
        word_at(be_bytes(seq) + be_bytes(timestamp), 4) == timestamp,
{
    lemma_word_of_bytes(seq);
    lemma_word_of_bytes(timestamp);
}

} // verus!
