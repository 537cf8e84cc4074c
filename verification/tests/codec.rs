use ucp::packet::{
    decode, encode, UcpPacket, CMD_ACK, CMD_DATA, CMD_HEARTBEAT, CMD_HEARTBEAT_ACK, CMD_SYN,
    CMD_SYN_ACK, UCP_PACKET_MAX_SIZE, UCP_PACKET_META_SIZE, UCP_PAYLOAD_MAX,
};

/// The IEEE CRC-32, bit by bit.
fn crc32_bitwise(bytes: &[u8]) -> u32 {
    let mut crc: u32 = 0xffff_ffff;
    for &b in bytes {
        crc ^= b as u32;
        for _ in 0..8 {
            crc = if crc & 1 == 1 { (crc >> 1) ^ 0xedb8_8320 } else { crc >> 1 };
        }
    }
    !crc
}

fn sample(payload: &[u8]) -> UcpPacket {
    let mut p = UcpPacket::with_header(0x0102_0304, 0x1122_3344, 256, 2, 0x0a0b_0c0d, 9, CMD_DATA);
    assert!(p.payload_write_slice(payload));
    p
}

/// A datagram with the given command byte and a checksum that holds.
fn datagram_with_command(cmd: u8) -> Vec<u8> {
    let mut p = sample(b"x");
    let mut bytes = encode(&mut p);
    bytes[28] = cmd;
    let crc = crc32_bitwise(&bytes[4..]);
    bytes[0..4].copy_from_slice(&crc.to_be_bytes());
    bytes
}

#[test]
fn encode_then_decode_gives_the_packet_back() {
    let mut p = UcpPacket::with_header(7, 1000, 256, 0, 3, 9, CMD_DATA);
    assert!(p.payload_write_slice(b"hello"));
    let bytes = encode(&mut p);
    assert_eq!(bytes.len(), 34);
    let q = decode(&bytes).expect("a packed packet decodes");
    assert_eq!(q.session_id(), 7);
    assert_eq!(q.timestamp(), 1000);
    assert_eq!(q.window(), 256);
    assert_eq!(q.xmit(), 0);
    assert_eq!(q.una(), 3);
    assert_eq!(q.seq(), 9);
    assert_eq!(q.cmd(), CMD_DATA);
    assert_eq!(q.payload_slice(), b"hello");
}

#[test]
fn round_trip_for_every_command_and_extreme_fields() {
    for cmd in [CMD_SYN, CMD_SYN_ACK, CMD_ACK, CMD_DATA, CMD_HEARTBEAT, CMD_HEARTBEAT_ACK] {
        let mut p = UcpPacket::with_header(u32::MAX, 0, u32::MAX, 1, 0, u32::MAX, cmd);
        assert!(p.payload_write_slice(&[0xff, 0x00, 0x80]));
        let bytes = encode(&mut p);
        let q = decode(&bytes).expect("decodes");
        assert_eq!(q.session_id(), u32::MAX);
        assert_eq!(q.timestamp(), 0);
        assert_eq!(q.window(), u32::MAX);
        assert_eq!(q.xmit(), 1);
        assert_eq!(q.una(), 0);
        assert_eq!(q.seq(), u32::MAX);
        assert_eq!(q.cmd(), cmd);
        assert_eq!(q.payload_slice(), &[0xff, 0x00, 0x80]);
    }
}

#[test]
fn round_trip_of_the_largest_payload() {
    let payload: Vec<u8> = (0..UCP_PAYLOAD_MAX).map(|i| (i % 251) as u8).collect();
    let mut p = sample(&payload);
    let bytes = encode(&mut p);
    assert_eq!(bytes.len(), UCP_PACKET_MAX_SIZE);
    let q = decode(&bytes).expect("decodes");
    assert_eq!(q.payload_slice(), payload.as_slice());
    assert_eq!(q.payload_len(), 1371);
}

#[test]
fn header_is_big_endian_at_fixed_offsets() {
    let mut p = sample(&[0xaa, 0xbb]);
    let bytes = encode(&mut p);
    assert_eq!(bytes.len(), 31);
    assert_eq!(&bytes[4..8], &[0x01, 0x02, 0x03, 0x04]);
    assert_eq!(&bytes[8..12], &[0x11, 0x22, 0x33, 0x44]);
    assert_eq!(&bytes[12..16], &[0x00, 0x00, 0x01, 0x00]);
    assert_eq!(&bytes[16..20], &[0x00, 0x00, 0x00, 0x02]);
    assert_eq!(&bytes[20..24], &[0x0a, 0x0b, 0x0c, 0x0d]);
    assert_eq!(&bytes[24..28], &[0x00, 0x00, 0x00, 0x09]);
    assert_eq!(bytes[28], 131);
    assert_eq!(&bytes[29..], &[0xaa, 0xbb]);
}

#[test]
fn checksum_is_the_ieee_crc32_of_everything_behind_it() {
    let mut p = sample(b"123456789");
    let bytes = encode(&mut p);
    let stored = u32::from_be_bytes([bytes[0], bytes[1], bytes[2], bytes[3]]);
    assert_eq!(stored, crc32_bitwise(&bytes[4..]));
    assert_eq!(crc32_bitwise(b"123456789"), 0xcbf4_3926);
}

#[test]
fn pack_sets_the_size_and_keeps_the_fields() {
    let mut p = sample(b"abc");
    assert_eq!(p.size(), 0);
    p.pack();
    assert_eq!(p.size(), 32);
    assert_eq!(p.packed_buffer().len(), 32);
    assert_eq!(p.seq(), 9);
    assert_eq!(p.payload_slice(), b"abc");
    assert!(p.is_legal());
    assert!(p.is_crc32_correct());
}

#[test]
fn flipping_any_bit_behind_the_checksum_is_detected() {
    let mut p = sample(b"payload bytes");
    let good = encode(&mut p);
    assert!(decode(&good).is_some());
    for i in 4..good.len() {
        for bit in 0..8 {
            let mut bad = good.clone();
            bad[i] ^= 1 << bit;
            assert!(decode(&bad).is_none(), "byte {} bit {}", i, bit);
        }
    }
}

#[test]
fn flipping_any_bit_of_the_checksum_is_detected() {
    let mut p = sample(b"payload bytes");
    let good = encode(&mut p);
    for i in 0..4 {
        for bit in 0..8 {
            let mut bad = good.clone();
            bad[i] ^= 1 << bit;
            assert!(decode(&bad).is_none(), "byte {} bit {}", i, bit);
        }
    }
}

#[test]
fn command_outside_the_six_is_rejected_with_a_good_checksum() {
    for cmd in [0u8, 1, 127, 134, 200, 255] {
        let bytes = datagram_with_command(cmd);
        let mut probe = UcpPacket::from_bytes(&bytes).expect("fits");
        assert!(probe.is_legal(), "the checksum holds for {}", cmd);
        assert!(!probe.parse());
        assert!(decode(&bytes).is_none(), "command {}", cmd);
    }
    for cmd in 128u8..=133 {
        assert!(decode(&datagram_with_command(cmd)).is_some(), "command {}", cmd);
    }
}

#[test]
fn failed_parse_leaves_the_packet_as_it_was() {
    let bytes = datagram_with_command(134);
    let mut probe = UcpPacket::from_bytes(&bytes).expect("fits");
    assert!(!probe.parse());
    assert_eq!(probe.session_id(), 0);
    assert_eq!(probe.seq(), 0);
    assert_eq!(probe.cmd(), 0);
    assert_eq!(probe.payload_len(), 0);
    assert_eq!(probe.packed_buffer(), bytes.as_slice());
}

#[test]
fn datagram_without_payload_is_rejected() {
    let mut p = UcpPacket::with_header(1, 2, 3, 4, 5, 6, CMD_SYN);
    let bytes = encode(&mut p);
    assert_eq!(bytes.len(), UCP_PACKET_META_SIZE);
    assert!(decode(&bytes).is_none());
    let mut one = UcpPacket::with_header(1, 2, 3, 4, 5, 6, CMD_SYN);
    assert!(one.payload_write_slice(&[0]));
    let bytes = encode(&mut one);
    assert_eq!(bytes.len(), 30);
    assert!(decode(&bytes).is_some());
}

#[test]
fn short_and_empty_datagrams_are_rejected() {
    assert!(decode(&[]).is_none());
    assert!(decode(&[0; 3]).is_none());
    assert!(decode(&[0; 28]).is_none());
    let p = UcpPacket::from_bytes(&[1, 2, 3]).expect("fits");
    assert!(!p.is_legal());
    assert_eq!(p.size(), 3);
}

#[test]
fn oversized_datagram_is_rejected() {
    let big = vec![0u8; UCP_PACKET_MAX_SIZE + 1];
    assert!(UcpPacket::from_bytes(&big).is_none());
    assert!(decode(&big).is_none());
    assert!(UcpPacket::from_bytes(&vec![0u8; UCP_PACKET_MAX_SIZE]).is_some());
}

#[test]
fn new_packet_is_blank() {
    let p = UcpPacket::new();
    assert_eq!(p.size(), 0);
    assert_eq!(p.payload_len(), 0);
    assert_eq!(p.session_id(), 0);
    assert_eq!(p.timestamp(), 0);
    assert_eq!(p.window(), 0);
    assert_eq!(p.xmit(), 0);
    assert_eq!(p.una(), 0);
    assert_eq!(p.seq(), 0);
    assert_eq!(p.cmd(), 0);
    assert!(!p.is_syn());
    assert_eq!(p.remaining_load(), 1371);
    assert_eq!(p.payload_start(), 29);
    assert_eq!(p.payload_offset(), 29);
}

#[test]
fn payload_writes_append_and_stop_at_the_limit() {
    let mut p = UcpPacket::with_header(0, 0, 0, 0, 0, 0, CMD_ACK);
    assert!(p.payload_write_u32(0x0102_0304));
    assert!(p.payload_write_u32(0xaabb_ccdd));
    assert_eq!(p.payload_slice(), &[1, 2, 3, 4, 0xaa, 0xbb, 0xcc, 0xdd]);
    assert_eq!(p.payload_len(), 8);
    assert_eq!(p.payload_offset(), 37);
    assert_eq!(p.remaining_load(), 1363);
    assert!(p.payload_write_slice(&vec![7u8; 1360]));
    assert_eq!(p.remaining_load(), 3);
    assert!(!p.payload_write_u32(1));
    assert!(!p.payload_write_slice(&[0; 4]));
    assert_eq!(p.payload_len(), 1368);
    assert!(p.payload_write_slice(&[9; 3]));
    assert_eq!(p.remaining_load(), 0);
    assert!(!p.payload_write_slice(&[1]));
    assert!(p.payload_write_slice(&[]));
    assert_eq!(p.payload_len(), 1371);
}

#[test]
fn words_and_bytes_are_read_where_they_were_written() {
    let mut p = UcpPacket::new();
    let mut offset: isize = 100;
    p.write_u32(&mut offset, 0xdead_beef);
    assert_eq!(offset, 104);
    p.write_u8(&mut offset, 0x5a);
    assert_eq!(offset, 105);
    let mut at: isize = 100;
    assert_eq!(p.parse_u32(&mut at), 0xdead_beef);
    assert_eq!(at, 104);
    assert_eq!(p.parse_u8(&mut at), 0x5a);
    assert_eq!(at, 105);
    let mut first: isize = 100;
    assert_eq!(p.parse_u8(&mut first), 0xde);
    let mut last: isize = 1396;
    p.write_u32(&mut last, 1);
    assert_eq!(last, 1400);
}

#[test]
fn stamp_changes_timestamp_and_xmit_only() {
    let mut p = sample(b"abc");
    p.stamp(77, 5);
    assert_eq!(p.timestamp(), 77);
    assert_eq!(p.xmit(), 5);
    assert_eq!(p.seq(), 9);
    assert_eq!(p.session_id(), 0x0102_0304);
    assert_eq!(p.payload_slice(), b"abc");
}

#[test]
fn is_syn_tells_the_syn_from_the_rest() {
    assert!(UcpPacket::with_header(0, 0, 0, 0, 0, 1, CMD_SYN).is_syn());
    assert!(!UcpPacket::with_header(0, 0, 0, 0, 0, 1, CMD_SYN_ACK).is_syn());
    assert!(!UcpPacket::with_header(0, 0, 0, 0, 0, 1, CMD_DATA).is_syn());
}

#[test]
fn checksum_field_is_written_and_compared() {
    let mut p = sample(b"abc");
    p.pack();
    let stored = u32::from_be_bytes([
        p.packed_buffer()[0],
        p.packed_buffer()[1],
        p.packed_buffer()[2],
        p.packed_buffer()[3],
    ]);
    assert!(p.holds_checksum(stored));
    assert!(!p.holds_checksum(stored ^ 1));
    p.write_checksum(0x0102_0304);
    assert_eq!(&p.packed_buffer()[..4], &[1, 2, 3, 4]);
    assert!(p.holds_checksum(0x0102_0304));
    assert!(!p.is_crc32_correct());
    assert!(!p.is_legal());
    assert_eq!(p.size(), 32);
    assert_eq!(p.payload_slice(), b"abc");
    p.write_checksum(stored);
    assert!(p.is_legal());
}

#[test]
fn fields_are_read_whatever_the_checksum() {
    let mut good = sample(b"abc");
    let mut bytes = encode(&mut good);
    bytes[0] ^= 0xff;
    let mut p = UcpPacket::from_bytes(&bytes).expect("fits");
    assert!(!p.is_legal());
    assert!(p.parse_fields());
    assert_eq!(p.session_id(), 0x0102_0304);
    assert_eq!(p.timestamp(), 0x1122_3344);
    assert_eq!(p.window(), 256);
    assert_eq!(p.xmit(), 2);
    assert_eq!(p.una(), 0x0a0b_0c0d);
    assert_eq!(p.seq(), 9);
    assert_eq!(p.cmd(), CMD_DATA);
    assert_eq!(p.payload_slice(), b"abc");
    bytes[28] = 134;
    let mut q = UcpPacket::from_bytes(&bytes).expect("fits");
    assert!(!q.parse_fields());
    assert_eq!(q.seq(), 0);
    let mut short = UcpPacket::from_bytes(&bytes[..29]).expect("fits");
    assert!(!short.parse_fields());
    assert_eq!(short.session_id(), 0);
}

#[test]
fn buffer_keeps_what_was_written_across_pack() {
    let mut p = sample(b"abc");
    let mut offset: isize = 1000;
    p.write_u32(&mut offset, 0x0badf00d);
    p.pack();
    let mut at: isize = 1000;
    assert_eq!(p.parse_u32(&mut at), 0x0badf00d);
    assert_eq!(p.size(), 32);
}
