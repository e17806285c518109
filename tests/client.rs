use gdb_rsp::{
    ClientError, Expect, GdbRspClient, Id, PacketType, ProcessId, Reply, RspConnection,
};

fn frame(body: &[u8]) -> Vec<u8> {
    let mut conn = RspConnection::new(false);
    conn.disable_acking();
    conn.full_packet(body);
    conn.take_output()
}

fn request_body(client: &mut GdbRspClient) -> Vec<u8> {
    let out = client.take_output();
    out[1..out.len() - 3].to_vec()
}

#[test]
fn new_client_state() {
    let client = GdbRspClient::new();
    assert!(!client.is_non_stop());
    assert_eq!(client.current_thread(), ProcessId { pid: Id::Any, tid: Id::Any });
    assert_eq!(client.expected_reply(), None);
    assert!(client.connection().is_client());
    assert!(client.connection().is_acking());
}

#[test]
fn startup_turns_acking_off_on_ok() {
    let mut client = GdbRspClient::new();
    assert!(client.startup());
    assert_eq!(client.take_output(), frame(b"QStartNoAckMode"));
    assert_eq!(client.receive_ack(b'+'), Ok(true));
    let (n, res) = client.read_packet_with_retries(b"$OK#9a");
    assert_eq!(n, 6);
    let (kind, body) = res.unwrap();
    assert_eq!(kind, PacketType::Normal);
    assert_eq!(client.handle_reply(&body), Ok(Reply::Done));
    assert!(!client.connection().is_acking());
    assert_eq!(client.take_output(), b"+".to_vec());
}

#[test]
fn startup_with_required_acks_sends_nothing() {
    let mut client = GdbRspClient::new();
    client.set_require_acks(true);
    assert!(!client.startup());
    assert!(client.take_output().is_empty());
}

#[test]
fn read_with_retries_skips_bad_checksums() {
    let mut client = GdbRspClient::new();
    let (n, res) = client.read_packet_with_retries(b"$OK#00$OK#9a");
    assert_eq!(n, 12);
    assert_eq!(res, Some((PacketType::Normal, b"OK".to_vec())));
    assert_eq!(client.take_output(), b"-+".to_vec());
    let (n, res) = client.read_packet_with_retries(b"%Stop:T05#00");
    assert_eq!(n, 12);
    assert_eq!(res, Some((PacketType::Notification, b"Stop:T05".to_vec())));
    let (n, res) = client.read_packet_with_retries(b"$E0");
    assert_eq!((n, res), (3, None));
}

#[test]
fn nonstop_recorded_only_on_ok() {
    let mut client = GdbRspClient::new();
    client.set_nonstop(true);
    assert_eq!(request_body(&mut client), b"QNonStop:1".to_vec());
    assert_eq!(client.receive_ack(b'+'), Ok(true));
    assert_eq!(client.handle_reply(b"E02"), Err(ClientError::ErrorPacket(2)));
    assert!(!client.is_non_stop());
    client.set_nonstop(true);
    client.receive_ack(b'+').unwrap();
    assert_eq!(client.handle_reply(b"OK"), Ok(Reply::Done));
    assert!(client.is_non_stop());
}

#[test]
fn unrecognized_and_unsupported_replies() {
    let mut client = GdbRspClient::new();
    client.extended_mode();
    assert_eq!(request_body(&mut client), b"!".to_vec());
    client.receive_ack(b'+').unwrap();
    assert_eq!(client.handle_reply(b"what"), Err(ClientError::Unrecognized));
    client.extended_mode();
    client.receive_ack(b'+').unwrap();
    assert_eq!(client.handle_reply(b""), Err(ClientError::Unsupported));
}

#[test]
fn memory_requests() {
    let mut client = GdbRspClient::new();
    client.read_memory(0x1000, 0x40);
    assert_eq!(request_body(&mut client), b"m1000,40".to_vec());
    assert_eq!(client.expected_reply(), Some(Expect::Memory));
    client.receive_ack(b'+').unwrap();
    assert_eq!(client.handle_reply(b"0a0b"), Ok(Reply::Data(vec![0x0a, 0x0b])));
    client.write_memory(0x20, &[0xde, 0xad]);
    assert_eq!(request_body(&mut client), b"M20,2:dead".to_vec());
    client.receive_ack(b'+').unwrap();
    assert_eq!(client.handle_reply(b"OK"), Ok(Reply::Done));
}

#[test]
fn register_and_thread_requests() {
    let mut client = GdbRspClient::new();
    client.read_register(0x10);
    assert_eq!(request_body(&mut client), b"p10".to_vec());
    client.receive_ack(b'+').unwrap();
    assert_eq!(client.handle_reply(b"E01"), Err(ClientError::ErrorPacket(1)));
    client.write_register(3, b"00ff");
    assert_eq!(request_body(&mut client), b"P3=00ff".to_vec());
    client.receive_ack(b'+').unwrap();
    client.handle_reply(b"OK").unwrap();
    client.ping_thread(ProcessId::new(1, Some(2)));
    assert_eq!(request_body(&mut client), b"Tp1.2".to_vec());
    client.receive_ack(b'+').unwrap();
    client.handle_reply(b"OK").unwrap();
    client.detach(Some(ProcessId::new(10, None)));
    assert_eq!(request_body(&mut client), b"D;pa.0".to_vec());
    client.receive_ack(b'+').unwrap();
    client.handle_reply(b"OK").unwrap();
    client.detach(None);
    assert_eq!(request_body(&mut client), b"D".to_vec());
    client.receive_ack(b'+').unwrap();
    client.handle_reply(b"OK").unwrap();
    client.attach(ProcessId::new(5, None));
    assert_eq!(request_body(&mut client), b"vAttach;p5.0".to_vec());
    client.receive_ack(b'+').unwrap();
    assert_eq!(client.handle_reply(b"T05"), Ok(Reply::Raw(b"T05".to_vec())));
    client.kill(ProcessId::new(5, None));
    assert_eq!(request_body(&mut client), b"vKill;p5.0".to_vec());
    client.receive_ack(b'+').unwrap();
    client.handle_reply(b"OK").unwrap();
}

#[test]
fn current_thread_set_once() {
    let mut client = GdbRspClient::new();
    let t = ProcessId::new(3, Some(4));
    assert!(client.maybe_set_thread(t));
    assert_eq!(request_body(&mut client), b"Hgp3.4".to_vec());
    client.receive_ack(b'+').unwrap();
    client.handle_reply(b"OK").unwrap();
    assert_eq!(client.current_thread(), t);
    assert!(!client.maybe_set_thread(t));
    assert!(client.take_output().is_empty());
}

#[test]
fn breakpoint_requests() {
    let mut client = GdbRspClient::new();
    client.set_software_breakpoint(0x400000, None);
    assert_eq!(request_body(&mut client), b"Z0,400000,0".to_vec());
    client.receive_ack(b'+').unwrap();
    client.handle_reply(b"OK").unwrap();
    client.clear_access_watchpoint(0xff, Some(12));
    assert_eq!(request_body(&mut client), b"z4,ff,12".to_vec());
    client.receive_ack(b'+').unwrap();
    client.handle_reply(b"OK").unwrap();
    client.set_hardware_breakpoint(1, Some(255));
    assert_eq!(request_body(&mut client), b"Z1,1,255".to_vec());
}

#[test]
fn flag_and_signal_requests() {
    let mut client = GdbRspClient::new();
    client.set_randomization(false);
    assert_eq!(request_body(&mut client), b"QDisableRandomization:0".to_vec());
    client.receive_ack(b'+').unwrap();
    client.handle_reply(b"OK").unwrap();
    client.set_thread_events(true);
    assert_eq!(request_body(&mut client), b"QThreadEvents:1".to_vec());
    client.receive_ack(b'+').unwrap();
    client.handle_reply(b"OK").unwrap();
    client.set_pass_signals(&[0x1e, 0x02, 0x11, 0x02]);
    assert_eq!(request_body(&mut client), b"QPassSignals:2;2;11;1e".to_vec());
    client.receive_ack(b'+').unwrap();
    client.handle_reply(b"OK").unwrap();
    client.set_program_signals(&[]);
    assert_eq!(request_body(&mut client), b"QProgramSignals".to_vec());
    client.receive_ack(b'+').unwrap();
    client.handle_reply(b"OK").unwrap();
    client.catch_syscalls(Some(&[0x3c, 0x01][..]));
    assert_eq!(request_body(&mut client), b"QCatchSyscalls:1;3c;1".to_vec());
    client.receive_ack(b'+').unwrap();
    client.handle_reply(b"OK").unwrap();
    client.catch_syscalls(None);
    assert_eq!(request_body(&mut client), b"QCatchSyscalls:0".to_vec());
}

#[test]
fn symbol_requests() {
    let mut client = GdbRspClient::new();
    client.send_qsymbol(None);
    assert_eq!(request_body(&mut client), b"qSymbol::".to_vec());
    client.receive_ack(b'+').unwrap();
    assert_eq!(client.handle_reply(b"qSymbol:6d61696e"), Ok(Reply::Symbol(Some(b"main".to_vec()))));
    client.send_qsymbol(Some((&b"main"[..], 0x401000)));
    assert_eq!(request_body(&mut client), b"qSymbol:401000:main".to_vec());
    client.receive_ack(b'+').unwrap();
    assert_eq!(client.handle_reply(b"OK"), Ok(Reply::Symbol(None)));
}

#[test]
fn supported_and_stop_queries() {
    let mut client = GdbRspClient::new();
    client.query_supported();
    assert_eq!(
        request_body(&mut client),
        b"qSupported:multiprocess+;swbreak+;hwbreak+;fork-events+;vfork-events+;exec-events+;vContSupported+;QThreadEvents+;no-resumed+".to_vec()
    );
    client.receive_ack(b'+').unwrap();
    assert_eq!(client.handle_reply(b"PacketSize=4000"), Ok(Reply::Raw(b"PacketSize=4000".to_vec())));
    client.query_stop_reason();
    assert_eq!(request_body(&mut client), b"?".to_vec());
    client.receive_ack(b'+').unwrap();
    client.handle_reply(b"S05").unwrap();
    client.cont();
    assert_eq!(request_body(&mut client), b"c".to_vec());
}

#[test]
fn error_reply_through_client() {
    let mut client = GdbRspClient::new();
    client.extended_mode();
    client.take_output();
    client.receive_ack(b'+').unwrap();
    let (n, res) = client.read_packet_with_retries(b"$E01#a6");
    assert_eq!(n, 7);
    let (kind, body) = res.unwrap();
    assert_eq!(kind, PacketType::Normal);
    assert_eq!(client.take_output(), b"+".to_vec());
    assert_eq!(client.handle_reply(&body), Err(ClientError::ErrorPacket(0x01)));
}

#[test]
fn bad_checksum_then_good_frame() {
    let mut client = GdbRspClient::new();
    let (n, res) = client.read_packet_with_retries(b"$ab#00$ab#c3");
    assert_eq!(n, 12);
    assert_eq!(res, Some((PacketType::Normal, b"ab".to_vec())));
    assert_eq!(client.take_output(), b"-+".to_vec());
}

#[test]
fn notifications_come_in_wire_order_before_the_reply() {
    let mut client = GdbRspClient::new();
    let wire = b"%N1#7f%N2#80$OK#9a";
    let mut seen: Vec<Vec<u8>> = Vec::new();
    let mut pos = 0;
    let reply = loop {
        let (n, res) = client.read_packet_with_retries(&wire[pos..]);
        pos += n;
        match res {
            Some((PacketType::Notification, body)) => seen.push(body),
            Some((PacketType::Normal, body)) => break body,
            None => panic!("input ran out"),
        }
    };
    assert_eq!(seen, vec![b"N1".to_vec(), b"N2".to_vec()]);
    assert_eq!(reply, b"OK".to_vec());
    assert_eq!(pos, wire.len());
    assert_eq!(client.take_output(), b"+".to_vec());
}

#[test]
fn client_interrupt() {
    let mut client = GdbRspClient::new();
    client.interrupt();
    assert_eq!(client.take_output(), vec![0x03]);
}
