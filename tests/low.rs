use gdb_rsp::{
    decode_binary, parse_simple_reply, ClientError, Id, PacketType, ProcessId, RspConnection,
    RspError,
};

fn write_packet(conn: &mut RspConnection, kind: PacketType, body: &[u8]) -> Vec<u8> {
    match kind {
        PacketType::Normal => conn.start_packet(),
        PacketType::Notification => conn.start_notification_packet(),
    }
    conn.write_all(body);
    conn.finish_packet();
    conn.take_output()
}

fn read_all(conn: &mut RspConnection, wire: &[u8]) -> (usize, Option<Result<(PacketType, Vec<u8>), RspError>>) {
    conn.read_packet(wire)
}

#[test]
fn packets() {
    let expected = b"$qTfP#7b";
    let mut rsp = RspConnection::new(true);
    rsp.disable_acking();
    rsp.start_packet();
    rsp.write_all(b"qTfP");
    rsp.finish_packet();
    let output = rsp.take_output();
    assert_eq!(output, expected);
}

#[test]
fn ok_round_trip_wire_form() {
    let mut conn = RspConnection::new(true);
    conn.disable_acking();
    conn.full_packet(b"qTfP");
    assert_eq!(conn.take_output(), b"$qTfP#7b".to_vec());
    assert!(!conn.is_awaiting_ack());
}

#[test]
fn error_reply_is_read_and_parsed() {
    let mut conn = RspConnection::new(true);
    let (n, res) = read_all(&mut conn, b"$E01#a6");
    assert_eq!(n, 7);
    assert_eq!(res, Some(Ok((PacketType::Normal, b"E01".to_vec()))));
    assert_eq!(conn.take_output(), b"+".to_vec());
    assert_eq!(parse_simple_reply(b"E01"), Some((3, Err(ClientError::ErrorPacket(0x01)))));
}

#[test]
fn run_length_expansion_on_client() {
    let mut conn = RspConnection::new(true);
    let (n, res) = conn.read_packet(b"$0* #7a");
    assert_eq!(n, 7);
    assert_eq!(res, Some(Ok((PacketType::Normal, b"0000".to_vec()))));
    // '!' asks for 33 - 29 = 4 copies, '%' for 8.
    let mut conn = RspConnection::new(true);
    let (_, res) = conn.read_packet(b"$a*!#ac");
    assert_eq!(res, Some(Ok((PacketType::Normal, b"aaaaa".to_vec()))));
    let mut conn = RspConnection::new(true);
    let (_, res) = conn.read_packet(b"$xy*%z#ba");
    assert_eq!(res, Some(Ok((PacketType::Normal, b"xyyyyyyyyyz".to_vec()))));
}

#[test]
fn run_length_is_not_expanded_on_server() {
    let mut conn = RspConnection::new(false);
    conn.disable_acking();
    let (_, res) = conn.read_packet(b"$0* #00");
    assert_eq!(res, Some(Ok((PacketType::Normal, b"0* ".to_vec()))));
}

#[test]
fn binary_escape_of_hash() {
    let mut conn = RspConnection::new(true);
    conn.start_packet();
    conn.write_binary(&[0x23]);
    conn.finish_packet();
    let wire = conn.take_output();
    assert_eq!(wire, vec![0x24, 0x7d, 0x03, 0x23, 0x38, 0x30]);
    let mut reader = RspConnection::new(true);
    let (_, res) = reader.read_packet(&wire);
    assert_eq!(res, Some(Ok((PacketType::Normal, vec![0x7d, 0x03]))));
    assert_eq!(reader.take_output(), b"+".to_vec());
    assert_eq!(decode_binary(&[0x7d, 0x03]), vec![0x23]);
}

#[test]
fn retry_cap_gives_too_many_retries() {
    let mut conn = RspConnection::new(true);
    conn.set_maximum_retries(Some(2));
    conn.full_packet(b"qTfP");
    assert!(conn.is_awaiting_ack());
    assert_eq!(conn.receive_ack(b'-'), Ok(false));
    assert_eq!(conn.receive_ack(b'-'), Ok(false));
    assert_eq!(conn.receive_ack(b'-'), Err(RspError::TooManyRetries));
    assert!(!conn.is_awaiting_ack());
    assert_eq!(conn.take_output(), b"$qTfP#7b$qTfP#7b$qTfP#7b".to_vec());
}

#[test]
fn acked_after_k_refusals() {
    for k in 0..5usize {
        let mut conn = RspConnection::new(true);
        conn.set_maximum_retries(Some(k as u16));
        conn.full_packet(b"g");
        for _ in 0..k {
            assert_eq!(conn.receive_ack(b'-'), Ok(false));
        }
        assert_eq!(conn.receive_ack(b'+'), Ok(true));
        let expected: Vec<u8> = b"$g#67".repeat(k + 1);
        assert_eq!(conn.take_output(), expected);
        assert!(!conn.is_awaiting_ack());
    }
    let mut conn = RspConnection::new(true);
    conn.full_packet(b"g");
    for _ in 0..50 {
        assert_eq!(conn.receive_ack(b'x'), Ok(false));
    }
    assert_eq!(conn.receive_ack(b'+'), Ok(true));
}

#[test]
fn limit_one_below_refusals_fails_after_resends() {
    let k = 4usize;
    let mut conn = RspConnection::new(true);
    conn.set_maximum_retries(Some((k - 1) as u16));
    conn.full_packet(b"g");
    for _ in 0..k - 1 {
        assert_eq!(conn.receive_ack(b'-'), Ok(false));
    }
    assert_eq!(conn.receive_ack(b'-'), Err(RspError::TooManyRetries));
    assert_eq!(conn.take_output(), b"$g#67".repeat(k));
}

#[test]
fn packet_round_trip_without_acking() {
    let bodies: Vec<Vec<u8>> = vec![
        Vec::new(),
        b"qTfP".to_vec(),
        b"m1000,40".to_vec(),
        (0u8..=255).filter(|b| *b != b'#' && *b != b'*').collect(),
    ];
    for body in bodies {
        for kind in [PacketType::Normal, PacketType::Notification] {
            let mut writer = RspConnection::new(false);
            writer.disable_acking();
            let wire = write_packet(&mut writer, kind, &body);
            for client in [false, true] {
                let mut reader = RspConnection::new(client);
                reader.disable_acking();
                let (n, res) = reader.read_packet(&wire);
                assert_eq!(n, wire.len());
                assert_eq!(res, Some(Ok((kind, body.clone()))));
                assert!(reader.take_output().is_empty());
            }
        }
    }
}

#[test]
fn notification_round_trip_with_acking_sends_no_ack() {
    let mut writer = RspConnection::new(false);
    let wire = write_packet(&mut writer, PacketType::Notification, b"Stop:T05");
    assert!(!writer.is_awaiting_ack());
    assert_eq!(wire[0], b'%');
    let mut reader = RspConnection::new(true);
    let (_, res) = reader.read_packet(&wire);
    assert_eq!(res, Some(Ok((PacketType::Notification, b"Stop:T05".to_vec()))));
    assert!(reader.take_output().is_empty());
}

#[test]
fn binary_round_trip_through_client_reader() {
    let data: Vec<u8> = vec![b'$', b'#', b'}', b'*', 0, 1, b'a', b'}', b'}', 0xff, b'*'];
    let mut writer = RspConnection::new(false);
    writer.start_packet();
    writer.write_binary(&data);
    writer.finish_packet();
    let wire = writer.take_output();
    let body = &wire[1..wire.len() - 3];
    assert!(!body.contains(&b'$') && !body.contains(&b'#') && !body.contains(&b'*'));
    let mut reader = RspConnection::new(true);
    let (_, res) = reader.read_packet(&wire);
    let (kind, contents) = res.unwrap().unwrap();
    assert_eq!(kind, PacketType::Normal);
    assert_eq!(decode_binary(&contents), data);
}

#[test]
fn write_hex_writes_two_lowercase_digits_per_byte() {
    let mut conn = RspConnection::new(true);
    conn.disable_acking();
    conn.start_packet();
    conn.write_hex(&[0x00, 0xab, 0x7f]);
    conn.finish_packet();
    // '0'+'0'+'a'+'b'+'7'+'f' = 0x30+0x30+0x61+0x62+0x37+0x66 = 0x1c0
    assert_eq!(conn.take_output(), b"$00ab7f#c0".to_vec());
}

#[test]
fn checksum_mismatch_is_refused() {
    let mut conn = RspConnection::new(true);
    let (n, res) = conn.read_packet(b"noise$E01#a7$E01#a6");
    assert_eq!(n, 12);
    assert_eq!(res, Some(Err(RspError::InvalidChecksum)));
    assert_eq!(conn.take_output(), b"-".to_vec());
    let (n, res) = conn.read_packet(b"$E01#a6");
    assert_eq!(n, 7);
    assert_eq!(res, Some(Ok((PacketType::Normal, b"E01".to_vec()))));
    assert_eq!(conn.take_output(), b"+".to_vec());
}

#[test]
fn checksum_digits_may_be_upper_case_but_not_junk() {
    let mut conn = RspConnection::new(true);
    let (_, res) = conn.read_packet(b"$E01#A6");
    assert!(matches!(res, Some(Ok(_))));
    let (_, res) = conn.read_packet(b"$E01#zz");
    assert_eq!(res, Some(Err(RspError::InvalidChecksum)));
}

#[test]
fn packet_split_across_calls() {
    let mut conn = RspConnection::new(true);
    conn.disable_acking();
    let (n, res) = conn.read_packet(b"$qT");
    assert_eq!((n, res), (3, None));
    let (n, res) = conn.read_packet(b"fP#7");
    assert_eq!((n, res), (4, None));
    let (n, res) = conn.read_packet(b"bxyz");
    assert_eq!(n, 1);
    assert_eq!(res, Some(Ok((PacketType::Normal, b"qTfP".to_vec()))));
}

#[test]
fn no_ack_mode_stays_silent() {
    let mut conn = RspConnection::new(true);
    conn.disable_acking();
    assert!(!conn.is_acking());
    conn.full_packet(b"c");
    assert!(!conn.is_awaiting_ack());
    let (_, res) = conn.read_packet(b"$OK#00");
    assert_eq!(res, Some(Ok((PacketType::Normal, b"OK".to_vec()))));
    assert_eq!(conn.take_output(), b"$c#63".to_vec());
    assert!(!conn.is_acking());
}

#[test]
fn interrupt_sends_one_byte() {
    let mut conn = RspConnection::new(true);
    conn.interrupt();
    assert_eq!(conn.take_output(), vec![0x03]);
}

#[test]
fn thread_id_is_written_in_multiprocess_form() {
    let mut conn = RspConnection::new(true);
    conn.disable_acking();
    conn.start_packet();
    conn.write_thread_id(ProcessId { pid: Id::Specific(0x1234), tid: Id::All });
    conn.finish_packet();
    let wire = conn.take_output();
    assert_eq!(&wire[..wire.len() - 3], b"$p1234.-1");
    let mut conn = RspConnection::new(true);
    conn.disable_acking();
    conn.start_packet();
    conn.write_thread_id(ProcessId::new(255, None));
    conn.finish_packet();
    let wire = conn.take_output();
    assert_eq!(&wire[..wire.len() - 3], b"$pff.0");
}

#[test]
fn process_id_new() {
    assert_eq!(ProcessId::new(7, Some(9)), ProcessId { pid: Id::Specific(7), tid: Id::Specific(9) });
    assert_eq!(ProcessId::new(7, None), ProcessId { pid: Id::Specific(7), tid: Id::Any });
}

#[test]
fn decode_binary_keeps_a_trailing_escape() {
    assert_eq!(decode_binary(b"ab}"), b"ab}".to_vec());
    assert_eq!(decode_binary(b""), Vec::<u8>::new());
}
