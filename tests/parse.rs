use gdb_rsp::{
    parse_2_hex, parse_error, parse_hex_data, parse_hex_digits, parse_hex_number,
    parse_inferior_output, parse_memory, parse_ok, parse_qc_reply, parse_qsymbol,
    parse_simple_reply, parse_stop_exit, parse_stop_exit_signal, parse_stop_signal,
    parse_stop_signal_full, parse_stop_thread_exit, parse_thread_id, parse_thread_id_element,
    parse_thread_id_list, parse_thread_info_reply, ClientError, Id, ProcessId, RspConnection,
    StopReplyValue,
};

#[test]
fn decode_hex() {
    assert_eq!(gdb_rsp::decode_hex(b"000a").unwrap(), 10);
    assert_eq!(gdb_rsp::decode_hex(b"f01").unwrap(), 3841);
    assert_eq!(gdb_rsp::decode_hex(b"hi"), None);
}

#[test]
fn decode_hex_limits() {
    assert_eq!(gdb_rsp::decode_hex(b""), Some(0));
    assert_eq!(gdb_rsp::decode_hex(b"ffffffffffffffff"), Some(u64::MAX));
    assert_eq!(gdb_rsp::decode_hex(b"0000ffffffffffffffff"), Some(u64::MAX));
    assert_eq!(gdb_rsp::decode_hex(b"10000000000000000"), None);
    assert_eq!(gdb_rsp::decode_hex(b"AbC"), Some(0xabc));
}

#[test]
fn two_hex_digits_for_every_byte() {
    for b in 0..=255u8 {
        let lower = format!("{:02x}", b);
        let upper = format!("{:02X}", b);
        assert_eq!(parse_2_hex(lower.as_bytes()), Some((2, b)));
        assert_eq!(parse_2_hex(upper.as_bytes()), Some((2, b)));
    }
    assert_eq!(parse_2_hex(b"0g"), None);
    assert_eq!(parse_2_hex(b"x1"), None);
    assert_eq!(parse_2_hex(b"1"), None);
    assert_eq!(parse_2_hex(b"a5rest"), Some((2, 0xa5)));
}

#[test]
fn hex_number_round_trip() {
    for n in [0u64, 1, 0xff, 0x100, 0x1234, 0xdead_beef, u64::MAX, 1 << 63] {
        let mut bytes = n.to_be_bytes().to_vec();
        while bytes.len() > 1 && bytes[0] == 0 {
            bytes.remove(0);
        }
        let text: String = bytes.iter().map(|b| format!("{:02x}", b)).collect();
        assert_eq!(parse_hex_number(text.as_bytes()), Some((text.len(), n)));
    }
    assert_eq!(parse_hex_number(b"abc"), Some((2, 0xab)));
    assert_eq!(parse_hex_number(b"zz"), None);
    assert_eq!(parse_hex_number(b"010000000000000000"), None);
}

#[test]
fn hex_data_and_digits() {
    assert_eq!(parse_hex_data(b"00ff7a;"), Some((6, vec![0x00, 0xff, 0x7a])));
    assert_eq!(parse_hex_data(b"g0"), None);
    assert_eq!(parse_hex_digits(b"1a3;"), Some((3, 0x1a3)));
    assert_eq!(parse_hex_digits(b";"), None);
}

#[test]
fn simple_replies() {
    assert_eq!(parse_ok(b"OK"), Some((2, ())));
    assert_eq!(parse_ok(b"OKx"), None);
    assert_eq!(parse_error(b"E7f"), Some((3, 0x7f)));
    assert_eq!(parse_error(b"E7f0"), None);
    assert_eq!(parse_simple_reply(b"OK"), Some((2, Ok(()))));
    assert_eq!(parse_simple_reply(b"E01"), Some((3, Err(ClientError::ErrorPacket(1)))));
    assert_eq!(parse_simple_reply(b""), Some((0, Err(ClientError::Unsupported))));
    assert_eq!(parse_simple_reply(b"OK1"), None);
}

#[test]
fn stop_reply_full_form() {
    let r = parse_stop_signal_full(b"T05thread:p1.1;core:0;swbreak:");
    let expected = vec![
        StopReplyValue::Thread(ProcessId { pid: Id::Specific(1), tid: Id::Specific(1) }),
        StopReplyValue::Core(0),
        StopReplyValue::SoftwareBreak,
    ];
    assert_eq!(r, Some((30, (5, expected))));
}

#[test]
fn stop_reply_full_form_elements() {
    let r = parse_stop_signal_full(
        b"T0b06:0102;watch:1f;library:x;replaylog:begin;fork:p2.3;exec:2f62696e;create:;vforkdone:",
    );
    let expected = vec![
        StopReplyValue::Register(6, vec![1, 2]),
        StopReplyValue::Watch(0x1f),
        StopReplyValue::LibraryChange,
        StopReplyValue::ReplayLog(true),
        StopReplyValue::Fork(ProcessId::new(2, Some(3))),
        StopReplyValue::Exec(b"/bin".to_vec()),
        StopReplyValue::Create,
        StopReplyValue::VForkDone,
    ];
    assert_eq!(r.map(|(_, v)| v), Some((0x0b, expected)));
    assert_eq!(parse_stop_signal_full(b"T05"), None);
    assert_eq!(parse_stop_signal_full(b"T05bogus:1"), None);
    assert_eq!(parse_stop_signal_full(b"T05swbreak:x"), None);
    assert_eq!(
        parse_stop_signal_full(b"T05syscall_entry:3c;hwbreak:;vfork:p5.0;replaylog:end;awatch:10;rwatch:20;syscall_return:3c")
            .map(|(_, (_, v))| v),
        Some(vec![
            StopReplyValue::SyscallEntry(0x3c),
            StopReplyValue::HardwareBreak,
            StopReplyValue::VFork(ProcessId { pid: Id::Specific(5), tid: Id::Any }),
            StopReplyValue::ReplayLog(false),
            StopReplyValue::Awatch(0x10),
            StopReplyValue::Rwatch(0x20),
            StopReplyValue::SyscallReturn(0x3c),
        ])
    );
}

#[test]
fn other_stop_replies() {
    assert_eq!(parse_stop_signal(b"S11"), Some((3, 0x11)));
    assert_eq!(parse_stop_signal(b"S1"), None);
    assert_eq!(parse_stop_exit(b"W00"), Some((3, (0, None))));
    assert_eq!(parse_stop_exit(b"W01;process:1f2e"), Some((16, (1, Some(0x1f2e)))));
    assert_eq!(parse_stop_exit(b"W01;process:"), None);
    assert_eq!(parse_stop_exit_signal(b"X0b"), Some((3, (0x0b, None))));
    assert_eq!(parse_stop_exit_signal(b"X0102;process:10"), Some((16, (0x0102, Some(0x10)))));
    assert_eq!(parse_stop_thread_exit(b"w00;0a"), Some((6, (0, 0x0a))));
    assert_eq!(parse_stop_thread_exit(b"w00;0a;"), None);
    assert_eq!(parse_inferior_output(b"O6869"), Some((5, b"hi".to_vec())));
    assert_eq!(parse_inferior_output(b"O"), None);
}

#[test]
fn thread_ids() {
    assert_eq!(parse_thread_id_element(b"0"), Some((1, Id::Any)));
    assert_eq!(parse_thread_id_element(b"-1"), Some((2, Id::All)));
    assert_eq!(parse_thread_id_element(b"1f."), Some((2, Id::Specific(0x1f))));
    assert_eq!(parse_thread_id_element(b"100000000"), None);
    assert_eq!(parse_thread_id(b"7"), Some((1, ProcessId { pid: Id::Specific(7), tid: Id::Any })));
    assert_eq!(parse_thread_id(b"p-1.0"), Some((5, ProcessId { pid: Id::All, tid: Id::Any })));
    assert_eq!(parse_thread_id(b"p1"), None);
    assert_eq!(parse_qc_reply(b"QCp10.11"), Some((8, ProcessId::new(16, Some(17)))));
    assert_eq!(
        parse_thread_id_list(b"p1.2,p1.3"),
        Some((9, vec![ProcessId::new(1, Some(2)), ProcessId::new(1, Some(3))]))
    );
    assert_eq!(parse_thread_info_reply(b"l"), Some((1, None)));
    assert_eq!(parse_thread_info_reply(b"p1.2,3"), Some((6, Some(vec![ProcessId::new(1, Some(2)), ProcessId::new(3, None)]))));
    assert_eq!(parse_thread_info_reply(b"x"), None);
}

#[test]
fn thread_id_round_trip() {
    let parts = [Id::Any, Id::All, Id::Specific(1), Id::Specific(0x1234), Id::Specific(u32::MAX)];
    for pid in parts {
        for tid in parts {
            let p = ProcessId { pid, tid };
            let mut conn = RspConnection::new(true);
            conn.disable_acking();
            conn.start_packet();
            conn.write_thread_id(p);
            conn.finish_packet();
            let wire = conn.take_output();
            let text = &wire[1..wire.len() - 3];
            assert_eq!(parse_thread_id(text), Some((text.len(), p)));
        }
    }
}

#[test]
fn symbol_and_memory_replies() {
    assert_eq!(parse_qsymbol(b"OK"), Some((2, None)));
    assert_eq!(parse_qsymbol(b"qSymbol:6d61696e"), Some((16, Some(b"main".to_vec()))));
    assert_eq!(parse_qsymbol(b"qSymbol:"), None);
    assert_eq!(parse_memory(b"E14"), Some((3, Err(ClientError::ErrorPacket(0x14)))));
    assert_eq!(parse_memory(b"0102"), Some((4, Ok(vec![1, 2]))));
    assert_eq!(parse_memory(b""), Some((0, Err(ClientError::Unsupported))));
    assert_eq!(parse_memory(b"xyz"), None);
}
