use std::cell::RefCell;
use std::collections::VecDeque;
use std::rc::Rc;

use pico_wireless::buffer::{Buffer, BufferError, GenBuffer};
use pico_wireless::esp32::Esp32;
use pico_wireless::lines::ControlLines;
use pico_wireless::protocol::Esp32Error;
use pico_wireless::spi::{Spi, SpiDevice};
use pico_wireless::types::{ConnectionStatus, EncryptionType, IpV4, ProtocolMode, Socket};

/// What the simulated co-processor has seen and still has to say.
#[derive(Default)]
struct PeerState {
    selects: usize,
    selected: bool,
    /// Bytes received in each command exchange, padding reads included.
    commands: Vec<Vec<u8>>,
    /// Number of bytes read by the host in each reply exchange.
    reply_reads: Vec<usize>,
    /// Reply bytes, one queue per reply exchange.
    replies: VecDeque<VecDeque<u8>>,
    /// Byte sent once a reply queue is empty.
    idle: u8,
    events: Vec<String>,
}

impl PeerState {
    fn in_reply(&self) -> bool {
        self.selects % 2 == 0
    }
}

struct PeerBus(Rc<RefCell<PeerState>>);
struct PeerLines(Rc<RefCell<PeerState>>);

impl SpiDevice for PeerBus {
    fn transfer(&mut self, byte: u8) -> u8 {
        let mut st = self.0.borrow_mut();
        assert!(st.selected, "transfer while not selected");
        if st.in_reply() {
            *st.reply_reads.last_mut().unwrap() += 1;
            let idle = st.idle;
            st.replies.front_mut().and_then(|q| q.pop_front()).unwrap_or(idle)
        } else {
            st.commands.last_mut().unwrap().push(byte);
            0
        }
    }
}

impl ControlLines for PeerLines {
    fn wait_ready(&mut self) {}
    fn wait_ack(&mut self) {}
    fn set_select(&mut self, selected: bool) {
        let mut st = self.0.borrow_mut();
        if selected && !st.selected {
            st.selects += 1;
            if st.in_reply() {
                st.reply_reads.push(0);
            } else {
                st.commands.push(Vec::new());
            }
        }
        if !selected && st.selected && st.in_reply() {
            st.replies.pop_front();
        }
        st.selected = selected;
        st.events.push(format!("cs {}", selected));
    }
    fn set_reset(&mut self, asserted: bool) {
        self.0.borrow_mut().events.push(format!("reset {}", asserted));
    }
    fn set_aux(&mut self, high: bool) {
        self.0.borrow_mut().events.push(format!("aux {}", high));
    }
    fn delay_ms(&mut self, ms: u32) {
        self.0.borrow_mut().events.push(format!("delay {}", ms));
    }
}

fn peer(replies: Vec<Vec<u8>>) -> (Esp32<PeerBus, PeerLines>, Rc<RefCell<PeerState>>) {
    let st = Rc::new(RefCell::new(PeerState {
        replies: replies.into_iter().map(VecDeque::from).collect(),
        idle: 0xFF,
        ..Default::default()
    }));
    let esp = Esp32::new(Spi::new(PeerBus(st.clone())), PeerLines(st.clone()));
    (esp, st)
}

fn reply(cmd: u8, fields: &[&[u8]]) -> Vec<u8> {
    let mut r = vec![0xE0, cmd | 0x80, fields.len() as u8];
    for f in fields {
        r.push(f.len() as u8);
        r.extend_from_slice(f);
    }
    r.push(0xEE);
    r
}

#[test]
fn startup_runs_reset_sequence() {
    let (_esp, st) = peer(vec![]);
    let events = st.borrow().events.clone();
    assert_eq!(
        events,
        vec!["cs false", "aux true", "reset true", "delay 10", "reset false", "delay 750"]
    );
}

#[test]
fn get_socket_returns_peer_socket() {
    let (mut esp, st) = peer(vec![vec![0xE0, 0x3F | 0x80, 1, 1, 0x02, 0xEE]]);
    assert_eq!(esp.get_socket(), Ok(Socket(2)));
    let st = st.borrow();
    assert_eq!(st.commands[0], vec![0xE0, 0x3F, 0, 0xEE]);
    assert_eq!(st.reply_reads[0], 6);
}

#[test]
fn analog_write_status_one_is_success() {
    let (mut esp, st) = peer(vec![reply(0x52, &[&[0x01]])]);
    assert_eq!(esp.analog_write(25, 255), Ok(()));
    assert_eq!(st.borrow().commands[0], vec![0xE0, 0x52, 2, 1, 25, 1, 255, 0xEE]);
}

#[test]
fn analog_write_status_zero_is_error_code() {
    let (mut esp, _st) = peer(vec![reply(0x52, &[&[0x00]])]);
    assert_eq!(esp.analog_write(26, 0), Err(Esp32Error::ErrorCode(0)));
}

#[test]
fn missing_start_times_out_and_next_call_works() {
    let (mut esp, st) = peer(vec![vec![], reply(0x3F, &[&[7]])]);
    st.borrow_mut().idle = 0x00;
    assert_eq!(esp.get_conn_status(), Err(Esp32Error::WaitForByteTimeout));
    assert_eq!(st.borrow().reply_reads[0], 5000);
    assert_eq!(esp.get_socket(), Ok(Socket(7)));
    let st = st.borrow();
    assert_eq!(st.commands[1], vec![0xE0, 0x3F, 0, 0xEE]);
    assert_eq!(st.reply_reads[1], 6);
}

#[test]
fn error_marker_stops_reply() {
    let (mut esp, st) = peer(vec![vec![0x00, 0x00, 0xEF, 0xE0]]);
    assert_eq!(esp.get_channel(1), Err(Esp32Error::ErrCmd));
    assert_eq!(st.borrow().reply_reads[0], 3);
}

#[test]
fn leading_noise_before_start_is_skipped() {
    let (mut esp, _st) = peer(vec![vec![0x00, 0x12, 0xE0, 0x3D | 0x80, 1, 1, 6, 0xEE]]);
    assert_eq!(esp.get_channel(3), Ok(6));
}

#[test]
fn command_frames_are_padded_to_four_bytes() {
    for size in [0usize, 1, 3, 4, 255] {
        let payload = vec![0x5A; size];
        let (mut esp, st) = peer(vec![reply(0x46, &[&[1]])]);
        assert_eq!(esp.insert_data_buf(Socket(3), &payload), Ok(()));
        let st = st.borrow();
        let sent = &st.commands[0];
        assert_eq!(sent.len() % 4, 0, "payload of {} bytes", size);
        let frame_len = 3 + 2 + 2 + size + 1;
        assert!(sent.len() >= frame_len && sent.len() < frame_len + 4);
        assert_eq!(&sent[..7], &[0xE0, 0x46, 2, 1, 3, (size / 256) as u8, (size % 256) as u8]);
        assert_eq!(sent[frame_len - 1], 0xEE);
        assert!(sent[frame_len..].iter().all(|b| *b == 0xFF));
    }
}

#[test]
fn scalar_parameters_are_padded_to_four_bytes() {
    for size in [0usize, 1, 3, 4, 255] {
        let ssid = "s".repeat(size);
        let (mut esp, st) = peer(vec![reply(0x11, &[&[1]])]);
        assert_eq!(esp.wifi_set_passphrase(&ssid, "pw"), Ok(()));
        let st = st.borrow();
        let sent = &st.commands[0];
        assert_eq!(sent.len() % 4, 0);
        assert_eq!(&sent[..4], &[0xE0, 0x11, 2, size as u8]);
        assert_eq!(&sent[4 + size..4 + size + 4], &[2, b'p', b'w', 0xEE]);
    }
}

#[test]
fn scan_round_trip_recovers_fields() {
    let names: [&[u8]; 3] = [b"home", b"", b"cafe-guest"];
    let (mut esp, st) = peer(vec![reply(0x27, &names)]);
    let mut ssids: Buffer<64, 9> = Buffer::new();
    assert_eq!(esp.scan_networks(&mut ssids), Ok(()));
    assert_eq!(ssids.len(), 3);
    assert_eq!(ssids.field_as_str(0), Ok("home"));
    assert_eq!(ssids.field_as_str(1), Ok(""));
    assert_eq!(ssids.field_as_str(2), Ok("cafe-guest"));
    assert_eq!(st.borrow().commands[0], vec![0xE0, 0x27, 0, 0xEE]);
}

#[test]
fn scan_drops_names_that_do_not_fit_and_consumes_frame() {
    let names: [&[u8]; 4] = [b"aa", b"bbbb", b"cc", b"d"];
    let (mut esp, st) = peer(vec![reply(0x27, &names), reply(0x3F, &[&[4]])]);
    let mut ssids: Buffer<5, 3> = Buffer::new();
    assert_eq!(esp.scan_networks(&mut ssids), Ok(()));
    assert_eq!(ssids.len(), 1);
    assert_eq!(ssids.field_as_str(0), Ok("aa"));
    assert_eq!(st.borrow().reply_reads[0], reply(0x27, &names).len());
    assert_eq!(esp.get_socket(), Ok(Socket(4)));
}

#[test]
fn scan_keeps_first_fields_when_count_is_full() {
    let names: [&[u8]; 3] = [b"a", b"b", b"c"];
    let (mut esp, _st) = peer(vec![reply(0x27, &names)]);
    let mut ssids: Buffer<64, 3> = Buffer::new();
    assert_eq!(esp.scan_networks(&mut ssids), Ok(()));
    assert_eq!(ssids.len(), 2);
    assert_eq!(ssids.field_as_str(1), Ok("b"));
}

#[test]
fn corrupted_reply_opcode_is_unexpected_byte() {
    let mut r = reply(0x27, &[b"net"]);
    r[1] ^= 0x01;
    let (mut esp, _st) = peer(vec![r]);
    let mut ssids: Buffer<64, 9> = Buffer::new();
    assert_eq!(esp.scan_networks(&mut ssids), Err(Esp32Error::UnexpectedByte));
}

#[test]
fn missing_end_marker_is_unexpected_byte() {
    let mut r = reply(0x27, &[b"net"]);
    r.pop();
    let (mut esp, _st) = peer(vec![r]);
    let mut ssids: Buffer<64, 9> = Buffer::new();
    assert_eq!(esp.scan_networks(&mut ssids), Err(Esp32Error::UnexpectedByte));
    assert_eq!(ssids.len(), 1);
}

#[test]
fn wrong_parameter_count_is_reported() {
    let (mut esp, _st) = peer(vec![reply(0x3F, &[&[1], &[2]])]);
    assert_eq!(esp.get_socket(), Err(Esp32Error::WrongNumberOfResponseParams));
}

#[test]
fn oversized_single_field_is_buffer_error() {
    let (mut esp, _st) = peer(vec![reply(0x3D, &[&[1, 2]])]);
    assert_eq!(
        esp.get_channel(0),
        Err(Esp32Error::ResponseBufferError(BufferError::SizeOverflow))
    );
}

#[test]
fn empty_single_field_is_wrong_size() {
    let (mut esp, _st) = peer(vec![reply(0x3D, &[&[]])]);
    assert_eq!(
        esp.get_channel(0),
        Err(Esp32Error::ResponseBufferError(BufferError::WrongFieldSize))
    );
}

#[test]
fn conn_status_decodes_known_bytes() {
    let (mut esp, st) = peer(vec![reply(0x20, &[&[3]]), reply(0x20, &[&[255]])]);
    assert_eq!(esp.get_conn_status(), Ok(ConnectionStatus::Connected));
    assert_eq!(esp.get_conn_status(), Ok(ConnectionStatus::NoShield));
    assert_eq!(st.borrow().commands[0], vec![0xE0, 0x20, 0, 0xEE]);
}

#[test]
fn conn_status_rejects_unknown_byte() {
    let (mut esp, _st) = peer(vec![reply(0x20, &[&[10]])]);
    assert_eq!(esp.get_conn_status(), Err(Esp32Error::UnexpectedStatus(10)));
}

#[test]
fn encryption_type_decodes_and_rejects() {
    let (mut esp, st) = peer(vec![reply(0x33, &[&[4]]), reply(0x33, &[&[3]])]);
    assert_eq!(esp.get_encryption_type(2), Ok(EncryptionType::Ccmp));
    assert_eq!(esp.get_encryption_type(2), Err(Esp32Error::UnexpectedEncryptionType(3)));
    assert_eq!(st.borrow().commands[0], vec![0xE0, 0x33, 1, 1, 2, 0xEE, 0xFF, 0xFF]);
}

#[test]
fn rssi_reads_native_order_integer() {
    let v: i32 = -67;
    let (mut esp, st) = peer(vec![reply(0x32, &[&v.to_ne_bytes()])]);
    assert_eq!(esp.get_rssi(5), Ok(-67));
    assert_eq!(st.borrow().commands[0], vec![0xE0, 0x32, 1, 1, 5, 0xEE, 0xFF, 0xFF]);
}

#[test]
fn network_data_reads_three_addresses() {
    let (mut esp, _st) = peer(vec![reply(
        0x21,
        &[&[192, 168, 1, 20], &[255, 255, 255, 0], &[192, 168, 1, 1]],
    )]);
    let (ip, mask, gw) = esp.get_network_data().unwrap();
    assert_eq!(ip, IpV4([192, 168, 1, 20]));
    assert_eq!(mask, IpV4([255, 255, 255, 0]));
    assert_eq!(gw, IpV4([192, 168, 1, 1]));
    assert_eq!(ip.to_string(), "192.168.1.20");
}

#[test]
fn network_data_short_address_is_error() {
    let (mut esp, _st) = peer(vec![reply(0x21, &[&[10, 0, 0, 2], &[255, 0], &[10, 0, 0, 1]])]);
    assert_eq!(
        esp.get_network_data(),
        Err(Esp32Error::ResponseBufferError(BufferError::WrongFieldSize))
    );
}

#[test]
fn start_client_sends_parameters() {
    let (mut esp, st) = peer(vec![reply(0x2D, &[&[1]])]);
    let ip = IpV4([10, 0, 0, 7]);
    assert_eq!(esp.start_client(ip, 0x1F90, Socket(1), ProtocolMode::Udp), Ok(()));
    let port = 0x1F90u16.to_ne_bytes();
    let st = st.borrow();
    let mut expected = vec![0xE0, 0x2D, 4, 4, 10, 0, 0, 7, 2, port[0], port[1], 1, 1, 1, 1, 0xEE];
    while expected.len() % 4 != 0 {
        expected.push(0xFF);
    }
    assert_eq!(st.commands[0], expected);
}

#[test]
fn send_data_udp_checks_status() {
    let (mut esp, st) = peer(vec![reply(0x39, &[&[9]])]);
    assert_eq!(esp.send_data_udp(Socket(2)), Err(Esp32Error::ErrorCode(9)));
    assert_eq!(st.borrow().commands[0], vec![0xE0, 0x39, 1, 1, 2, 0xEE, 0xFF, 0xFF]);
}

#[test]
fn scan_with_no_networks() {
    let (mut esp, st) = peer(vec![reply(0x27, &[])]);
    let mut ssids: Buffer<16, 4> = Buffer::new();
    assert_eq!(esp.scan_networks(&mut ssids), Ok(()));
    assert_eq!(ssids.len(), 0);
    assert_eq!(st.borrow().reply_reads[0], 4);
}

#[test]
fn scan_reads_largest_field() {
    let name = [b'x'; 255];
    let (mut esp, _st) = peer(vec![reply(0x27, &[&name])]);
    let mut ssids: Buffer<255, 2> = Buffer::new();
    assert_eq!(esp.scan_networks(&mut ssids), Ok(()));
    assert_eq!(ssids.field_as_slice_fixed(0, 255), Ok(&name[..]));
}

#[test]
fn field_list_too_large_without_skipping_is_error() {
    let (mut esp, _st) = peer(vec![reply(0x21, &[&[1, 2, 3, 4], &[5, 6, 7, 8], &[9, 10, 11, 12, 13]])]);
    assert_eq!(
        esp.get_network_data(),
        Err(Esp32Error::ResponseBufferError(BufferError::SizeOverflow))
    );
}

#[test]
fn framer_pads_and_resets_between_commands() {
    let (mut esp, st) = peer(vec![reply(0x27, &[b"ab"]), vec![]]);
    esp.start_cmd(0x27, 1);
    esp.send_param(&[9, 9]);
    esp.end_cmd();
    let mut fields: Buffer<8, 3> = Buffer::new();
    assert_eq!(esp.get_response(0x27, &mut fields, Some(1), false), Ok(()));
    assert_eq!(fields.field_as_str(0), Ok("ab"));
    st.borrow_mut().idle = 0x00;
    esp.start_cmd(0x20, 0);
    esp.end_cmd();
    let mut empty: Buffer<1, 2> = Buffer::new();
    assert_eq!(
        esp.get_response(0x20, &mut empty, Some(1), false),
        Err(Esp32Error::WaitForByteTimeout)
    );
    let st = st.borrow();
    assert_eq!(st.commands[0], vec![0xE0, 0x27, 1, 2, 9, 9, 0xEE, 0xFF]);
    assert_eq!(st.commands[1], vec![0xE0, 0x20, 0, 0xEE]);
    assert_eq!(st.reply_reads[1], 5000);
    assert_eq!(empty.len(), 0);
    assert!(!st.selected);
}
