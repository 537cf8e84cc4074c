use ucp::client::{pick_session_id, is_tick_due, LoopReport, UcpClient};
use ucp::clock::Moment;
use ucp::endpoint::Endpoint;
use ucp::model::UcpState;
use ucp::packet::{decode, encode, UcpPacket, CMD_ACK, CMD_DATA, CMD_SYN, CMD_SYN_ACK};
use ucp::server::{Routing, ServerReport, UcpServer, UcpStream};

fn addr(port: u16) -> Endpoint {
    Endpoint { v6: false, ip: 0x0a00_0001, port, flowinfo: 0, scope_id: 0 }
}

fn at(ms: u32) -> Moment {
    Moment::from_millis(ms)
}

/// A SYN that a decoder accepts: one byte of payload behind the header.
fn syn_datagram(session: u32, window: u32) -> Vec<u8> {
    let mut syn = UcpPacket::with_header(session, 0, window, 0, 0, 1, CMD_SYN);
    assert!(syn.payload_write_slice(&[0]));
    encode(&mut syn)
}

fn data_datagram(session: u32, seq: u32, payload: &[u8]) -> Vec<u8> {
    let mut p = UcpPacket::with_header(session, 0, 256, 0, 0, seq, CMD_DATA);
    assert!(p.payload_write_slice(payload));
    encode(&mut p)
}

#[test]
fn session_identifier_is_never_zero() {
    assert_eq!(pick_session_id(0), 1);
    assert_eq!(pick_session_id(1), 1);
    assert_eq!(pick_session_id(2), 2);
    assert_eq!(pick_session_id(u32::MAX), u32::MAX);
}

#[test]
fn tick_is_due_ten_milliseconds_after_the_last() {
    assert!(!is_tick_due(&at(100), &at(100)));
    assert!(!is_tick_due(&at(100), &at(109)));
    assert!(is_tick_due(&at(100), &at(110)));
    assert!(is_tick_due(&at(100), &at(5000)));
    assert!(!is_tick_due(&at(100), &at(50)));
    let late = Moment { sec: 0, nsec: 9_999_999 };
    assert!(!is_tick_due(&at(0), &late));
}

#[test]
fn client_connects_with_a_syn_in_the_outbox() {
    let mut client = UcpClient::connect_at(addr(9000), 77, at(500));
    assert_eq!(client.stream().state(), UcpState::CONNECTING);
    assert_eq!(client.stream().session_id(), 77);
    assert_eq!(client.stream().remote_addr(), addr(9000));
    let out = client.take_outbox();
    assert_eq!(out.len(), 1);
    let mut syn = UcpPacket::with_header(77, 0, 256, 0, 0, 1, CMD_SYN);
    assert_eq!(out[0], encode(&mut syn));
}

#[test]
fn client_connects_by_the_system_clock_under_a_random_session() {
    let mut client = UcpClient::connect(addr(9000));
    assert_eq!(client.stream().state(), UcpState::CONNECTING);
    assert_ne!(client.stream().session_id(), 0);
    assert_eq!(client.stream().send_queue_len(), 1);
    let out = client.take_outbox();
    assert_eq!(out.len(), 1);
    assert_eq!(out[0].len(), 29);
    assert_eq!(out[0][28], CMD_SYN);
    let session = u32::from_be_bytes([out[0][4], out[0][5], out[0][6], out[0][7]]);
    assert_eq!(session, client.stream().session_id());
    assert!(client.send(b"hello"));
    assert_eq!(client.stream().send_queue_len(), 2);
    client.update();
    assert_eq!(client.stream().send_queue_len(), 2);
}

#[test]
fn random_sessions_differ() {
    let mut seen = Vec::new();
    for _ in 0..8 {
        seen.push(UcpClient::connect(addr(9000)).stream().session_id());
    }
    seen.sort();
    seen.dedup();
    assert!(seen.len() > 1);
}

#[test]
fn client_loop_turn_processes_then_ticks() {
    let mut client = UcpClient::connect_at(addr(9000), 77, at(0));
    client.take_outbox();
    let mut syn_ack = UcpPacket::with_header(77, 0, 256, 0, 2, 1, CMD_SYN_ACK);
    assert!(syn_ack.payload_write_u32(1));
    assert!(syn_ack.payload_write_u32(0));
    let bytes = encode(&mut syn_ack);

    let report = client.run_once_at(None, addr(9000), at(5));
    assert_eq!(report, LoopReport { readable: false, ticked: false });
    let report = client.run_once_at(Some(&bytes), addr(1), at(6));
    assert_eq!(report, LoopReport { readable: false, ticked: false });
    assert_eq!(client.stream().state(), UcpState::CONNECTING);
    let report = client.run_once_at(Some(&bytes), addr(9000), at(10));
    assert_eq!(report, LoopReport { readable: false, ticked: true });
    assert_eq!(client.stream().state(), UcpState::ESTABLISHED);
    let out = client.take_outbox();
    assert_eq!(out.len(), 1);
    assert_eq!(decode(&out[0]).expect("decodes").cmd(), CMD_ACK);

    let report = client.run_once_at(Some(&data_datagram(77, 2, b"abc")), addr(9000), at(12));
    assert_eq!(report, LoopReport { readable: true, ticked: false });
    let mut buf = [0u8; 8];
    assert_eq!(client.recv(&mut buf), 3);
    assert_eq!(&buf[..3], b"abc");
    let report = client.run_once_at(Some(&[1, 2, 3]), addr(9000), at(20));
    assert_eq!(report, LoopReport { readable: false, ticked: true });
    let out = client.take_outbox();
    assert_eq!(out.len(), 1);
    let ack = decode(&out[0]).expect("decodes");
    assert_eq!(ack.payload_slice(), &[0, 0, 0, 2, 0, 0, 0, 0]);
    let report = client.run_once_at(Some(&vec![0u8; 1401]), addr(9000), at(21));
    assert_eq!(report, LoopReport { readable: false, ticked: false });
}

#[test]
fn client_tick_runs_at_most_every_ten_milliseconds() {
    let mut client = UcpClient::connect_at(addr(9000), 77, at(0));
    client.take_outbox();
    assert!(!client.update_at(at(9)));
    assert!(client.update_at(at(150)));
    assert_eq!(client.take_outbox().len(), 1);
    assert!(!client.update_at(at(159)));
    assert!(client.update_at(at(160)));
    assert_eq!(client.take_outbox().len(), 0);
}

#[test]
fn client_send_at_and_process_packet_at() {
    let mut client = UcpClient::connect_at(addr(9000), 77, at(0));
    assert!(client.send_at(b"early", at(1)));
    assert!(!client.send_at(&vec![0u8; 2000], at(1)));
    assert_eq!(client.stream().send_queue_len(), 2);
    let garbage = UcpPacket::from_bytes(&[9u8; 40]).expect("fits");
    assert!(!client.process_packet_at(garbage, addr(9000), at(2)));
    assert_eq!(client.stream().state(), UcpState::CONNECTING);
    assert!(!client.process_packet(garbage, addr(9000)));
}

#[test]
fn server_starts_without_connections() {
    let server = UcpServer::listen_at(at(0));
    assert_eq!(server.stream_count(), 0);
    assert!(server.stream(0).is_none());
    assert!(server.lookup(addr(1)).is_none());
    let by_clock = UcpServer::listen();
    assert_eq!(by_clock.stream_count(), 0);
}

#[test]
fn server_opens_a_connection_per_address_on_syn() {
    let mut server = UcpServer::listen_at(at(0));
    let report = server.run_once_at(Some(&syn_datagram(11, 64)), addr(1), at(1));
    assert_eq!(report, ServerReport { routing: Routing::Accepted { index: 0 }, ticked: false });
    assert_eq!(server.stream_count(), 1);
    let first = server.stream(0).expect("registered");
    assert_eq!(first.state(), UcpState::ACCEPTING);
    assert_eq!(first.session_id(), 11);
    assert_eq!(first.remote_window(), 64);
    assert_eq!(first.remote_addr(), addr(1));
    assert_eq!(first.timestamp(at(1)), 0);

    let report = server.run_once_at(Some(&syn_datagram(22, 256)), addr(2), at(2));
    assert_eq!(report.routing, Routing::Accepted { index: 1 });
    assert_eq!(server.stream_count(), 2);
    assert_eq!(server.lookup(addr(1)), Some(0));
    assert_eq!(server.lookup(addr(2)), Some(1));
    assert_eq!(server.lookup(addr(3)), None);

    let out = server.take_outbox(0);
    assert_eq!(out.len(), 1);
    let syn_ack = decode(&out[0]).expect("decodes");
    assert_eq!(syn_ack.cmd(), CMD_SYN_ACK);
    assert_eq!(syn_ack.session_id(), 11);
    assert_eq!(server.take_outbox(0).len(), 0);
    assert_eq!(server.take_outbox(1).len(), 1);
    assert_eq!(server.take_outbox(7).len(), 0);
}

#[test]
fn server_routes_known_addresses_and_drops_the_rest() {
    let mut server = UcpServer::listen_at(at(0));
    server.run_once_at(Some(&syn_datagram(11, 64)), addr(1), at(1));
    let report = server.run_once_at(Some(&syn_datagram(11, 64)), addr(1), at(2));
    assert_eq!(report.routing, Routing::Delivered { index: 0, readable: false });
    assert_eq!(server.stream_count(), 1);

    let report = server.run_once_at(Some(&data_datagram(11, 2, b"hi")), addr(1), at(3));
    assert_eq!(report.routing, Routing::Delivered { index: 0, readable: true });
    assert_eq!(server.stream(0).expect("registered").state(), UcpState::ESTABLISHED);

    let report = server.run_once_at(Some(&data_datagram(11, 2, b"hi")), addr(9), at(4));
    assert_eq!(report.routing, Routing::Dropped);
    let report = server.run_once_at(Some(&[0u8; 50]), addr(1), at(5));
    assert_eq!(report.routing, Routing::Dropped);
    let report = server.run_once_at(Some(&vec![0u8; 1401]), addr(1), at(5));
    assert_eq!(report.routing, Routing::Dropped);
    let report = server.run_once_at(None, addr(1), at(6));
    assert_eq!(report.routing, Routing::Dropped);
    assert_eq!(server.stream_count(), 1);

    let mut buf = [0u8; 8];
    assert_eq!(server.recv(0, &mut buf), 2);
    assert_eq!(&buf[..2], b"hi");
    assert_eq!(server.recv(0, &mut buf), 0);
    assert_eq!(server.recv(5, &mut buf), 0);
}

#[test]
fn bare_syn_datagram_is_refused_by_the_decoder() {
    let mut client = UcpClient::connect_at(addr(9000), 77, at(0));
    let syn = client.take_outbox().remove(0);
    assert_eq!(syn.len(), 29);
    let mut server = UcpServer::listen_at(at(0));
    let report = server.run_once_at(Some(&syn), addr(1), at(1));
    assert_eq!(report.routing, Routing::Dropped);
    assert_eq!(server.stream_count(), 0);
}

#[test]
fn server_ticks_every_connection() {
    let mut server = UcpServer::listen_at(at(0));
    server.run_once_at(Some(&syn_datagram(11, 64)), addr(1), at(1));
    server.run_once_at(Some(&syn_datagram(22, 64)), addr(2), at(2));
    server.take_outbox(0);
    server.take_outbox(1);
    assert!(!server.update_at(at(9)));
    assert!(server.update_at(at(10)));
    assert_eq!(server.take_outbox(0).len(), 0);
    let report = server.run_once_at(None, addr(1), at(500));
    assert!(report.ticked);
    let first = server.take_outbox(0);
    let second = server.take_outbox(1);
    assert_eq!(first.len(), 1);
    assert_eq!(second.len(), 1);
    let again = decode(&first[0]).expect("decodes");
    assert_eq!(again.cmd(), CMD_SYN_ACK);
    assert_eq!(again.xmit(), 1);
    assert_eq!(again.timestamp(), 499);
    assert_eq!(decode(&second[0]).expect("decodes").timestamp(), 498);
    assert!(server.update());
    let now = Moment::now();
    server.update_at(now);
    assert!(!server.update_at(now));
}

#[test]
fn server_sends_on_a_connection_before_the_handshake_completes() {
    let mut server = UcpServer::listen_at(at(0));
    server.run_once_at(Some(&syn_datagram(11, 2)), addr(1), at(1));
    assert!(server.send_at(0, b"one", at(2)));
    assert!(server.send_at(0, b"two", at(3)));
    assert!(!server.send_at(0, &vec![0u8; 1372], at(3)));
    assert!(!server.send_at(4, b"none", at(3)));
    let stream = server.stream(0).expect("registered");
    assert_eq!(stream.send_queue_len(), 2);
    assert_eq!(stream.send_buffer_len(), 1);
    assert_eq!(server.take_outbox(0).len(), 2);
    assert!(server.send(0, b"three"));
    assert!(!server.send(1, b"none"));
    assert_eq!(server.stream(0).expect("registered").send_buffer_len(), 2);
}

#[test]
fn server_process_packet_reports_the_routing() {
    let mut server = UcpServer::listen_at(at(0));
    let syn = UcpPacket::from_bytes(&syn_datagram(11, 64)).expect("fits");
    assert_eq!(server.process_packet_at(syn, addr(1), at(1)), Routing::Accepted { index: 0 });
    assert_eq!(
        server.process_packet(syn, addr(1)),
        Routing::Delivered { index: 0, readable: false }
    );
    let data = UcpPacket::from_bytes(&data_datagram(11, 2, b"x")).expect("fits");
    assert_eq!(server.process_packet(data, addr(2)), Routing::Dropped);
    let mut parsed = syn;
    assert!(parsed.parse());
    assert_eq!(server.new_ucp_stream(&parsed, addr(3), at(4)), 1);
    assert_eq!(server.stream(1).expect("registered").state(), UcpState::ACCEPTING);
}

#[test]
fn handle_sends_and_receives_on_its_connection() {
    let mut server = UcpServer::listen_at(at(0));
    server.run_once_at(Some(&syn_datagram(11, 64)), addr(1), at(1));
    server.run_once_at(Some(&syn_datagram(22, 64)), addr(2), at(1));
    let first = UcpStream::new(0);
    let second = UcpStream { index: 1 };
    let missing = UcpStream::new(2);
    assert_eq!(first.index, 0);
    server.run_once_at(Some(&data_datagram(22, 2, b"for two")), addr(2), at(2));
    let mut buf = [0u8; 16];
    assert_eq!(first.recv(&mut server, &mut buf), 0);
    assert_eq!(missing.recv(&mut server, &mut buf), 0);
    assert_eq!(second.recv(&mut server, &mut buf), 7);
    assert_eq!(&buf[..7], b"for two");
    assert!(first.send(&mut server, b"reply"));
    assert!(!missing.send(&mut server, b"reply"));
    assert!(!first.send(&mut server, &vec![0u8; 1372]));
    assert_eq!(server.stream(0).expect("registered").send_queue_len(), 2);
    assert_eq!(server.stream(1).expect("registered").send_queue_len(), 1);
}
