//! Client side and framing layer of the GDB Remote Serial Protocol.
//!
//! The library does no I/O of its own: a connection collects the bytes it
//! wants to send and is handed the bytes that arrive, one slice at a time.
use vstd::prelude::*;

pub mod client;
pub mod low;
pub mod parse;
pub mod util;

pub use client::{Expect, GdbRspClient, QueryOption, Reply};
pub use low::{decode_binary, Id, PacketType, ProcessId, RspConnection, RspError, RspResult};
pub use parse::{
    parse_2_hex, parse_error, parse_hex_data, parse_hex_digits, parse_hex_number,
    parse_inferior_output, parse_memory, parse_ok, parse_qc_reply, parse_qsymbol,
    parse_simple_reply, parse_stop_exit, parse_stop_exit_signal, parse_stop_signal,
    parse_stop_signal_full, parse_stop_thread_exit, parse_thread_id, parse_thread_id_element,
    parse_thread_id_list, parse_thread_info_reply, ClientError, ClientResult, Parsed,
    StopReplyValue,
};
pub use util::decode_hex;
