//! The co-processor driver: handshake, command frames, replies, and one
//! operation per supported command.
use vstd::prelude::*;
use crate::buffer::{i32_be, i32_le, Buffer, GenBuffer};
use crate::protocol::{
    after_field, bulk, command_frame, field_phase, is_done, padding, phase_ok, reads_exactly,
    reads_left, reply_byte, reply_field, reply_result, reply_run, reply_start, reply_step, scalar,
    single_field_rules, status_of, Esp32Error, ReplyPhase, ReplyRules, ReplyState, BYTE_TIMEOUT,
    DUMMY_DATA, END_CMD, ERR_CMD, GET_CONN_STATUS, GET_IDX_CHANNEL, GET_IDX_ENCT, GET_IDX_RSSI,
    GET_IP_ADDR, GET_SOCKET, INSERT_DATA_BUF, REPLY_FLAG, SCAN_NETWORKS, SEND_DATA_UDP,
    SET_ANALOG_WRITE, SET_PASSPHRASE, START_CLIENT_TCP, START_CMD,
};
use crate::lines::{ControlLines, LineEvent, Lines};
use crate::spi::{Spi, SpiDevice};
use crate::types::{
    conn_status_from, encryption_from, mode_byte, ConnectionStatus, EncryptionType, IpV4,
    ProtocolMode, Socket,
};
use vstd::string::StringSliceAdditionalSpecFns;

verus! {

/// `n` dummy bytes, as shifted out by reads.
pub open spec fn dummies(n: nat) -> Seq<u8> {
    Seq::new(n, |i: int| DUMMY_DATA)
}

/// The handshake gate: wait for ready, select, wait for the acknowledgement.
pub open spec fn gate() -> Seq<LineEvent> {
    seq![LineEvent::WaitReady, LineEvent::Select(true), LineEvent::WaitAck]
}

/// One gated frame on the lines: handshake first, chip-select released last.
pub open spec fn gated() -> Seq<LineEvent> {
    gate().push(LineEvent::Select(false))
}

/// The reset sequence run when the driver is created.
pub open spec fn startup_lines() -> Seq<LineEvent> {
    seq![
        LineEvent::Select(false),
        LineEvent::Aux(true),
        LineEvent::Reset(true),
        LineEvent::Delay(10),
        LineEvent::Reset(false),
        LineEvent::Delay(750),
    ]
}

/// What is shifted out for a command frame: the frame, then dummy bytes up
/// to a multiple of four.
pub open spec fn command_out(frame: Seq<u8>) -> Seq<u8> {
    frame + dummies(padding(frame.len()))
}

/// A command frame for `cmd` without parameters.
pub open spec fn frame0(cmd: u8) -> Seq<u8> {
    command_frame(cmd, 0, Seq::empty())
}

/// A command frame for `cmd` with the single one-byte parameter `p`.
pub open spec fn frame1(cmd: u8, p: u8) -> Seq<u8> {
    command_frame(cmd, 1, scalar(seq![p]))
}

/// Rules for the reply to the address query: three fields in twelve bytes.
pub open spec fn network_rules() -> ReplyRules {
    ReplyRules { cmd: GET_IP_ADDR, expected: Some(3), keep_first: false, capacity: 12, max_fields: 3 }
}

/// The two bytes of `v`, least significant first.
pub open spec fn u16_le(v: u16) -> Seq<u8> {
    seq![(v % 256) as u8, (v / 256) as u8]
}

/// The two bytes of `v`, most significant first.
pub open spec fn u16_be(v: u16) -> Seq<u8> {
    seq![(v / 256) as u8, (v % 256) as u8]
}

/// The body of a client-start command with port bytes `port`.
pub open spec fn client_body(ip: IpV4, port: Seq<u8>, sock: Socket, mode: ProtocolMode) -> Seq<u8> {
    scalar(ip.0@) + scalar(port) + scalar(seq![sock.0]) + scalar(seq![mode_byte(mode)])
}

/// Relies on `u16::to_ne_bytes`: the two bytes of `v` in the platform's
/// byte order, which is either little- or big-endian.
#[verifier::external_body]
fn u16_to_native(v: u16) -> (r: [u8; 2])
    ensures
        r@ == u16_le(v) || r@ == u16_be(v),
{
    v.to_ne_bytes()
}

/// Rules for reading a reply into buffer `b`.
pub open spec fn rules_for<B: GenBuffer>(cmd: u8, expected: Option<u8>, keep_first: bool, b: B) -> ReplyRules {
    ReplyRules {
        cmd,
        expected,
        keep_first,
        capacity: b.byte_capacity(),
        max_fields: b.field_capacity(),
    }
}

/// `c` extends `b`, which extends `a`: `c` extends `a`.
proof fn lemma_prefix_trans(a: Seq<u8>, b: Seq<u8>, c: Seq<u8>)
    requires
        a.len() <= b.len() <= c.len(),
        b.take(a.len() as int) == a,
        c.take(b.len() as int) == b,
    ensures
        c.take(a.len() as int) == a,
{
    assert forall|i: int| 0 <= i < a.len() implies c.take(a.len() as int)[i] == a[i] by {
        assert(c.take(b.len() as int)[i] == b[i]);
        assert(b.take(a.len() as int)[i] == a[i]);
    }
    assert(c.take(a.len() as int) =~= a);
}

/// Largest command byte count that the driver's counter tracks.
pub const MAX_COMMAND_LENGTH: u32 = 0x10_0000;

/// Driver of the co-processor over transport `D` and control lines `L`.
pub struct Esp32<D: SpiDevice, L: ControlLines> {
    spi: Spi<D>,
    lines: Lines<L>,
    command_length: u32,
    reply: Ghost<Seq<u8>>,
}

impl<D: SpiDevice, L: ControlLines> Esp32<D, L> {
    /// Bytes shifted out on the bus so far, as the transport records them.
    pub closed spec fn sent(&self) -> Seq<u8> {
        self.spi.sent()
    }

    /// Bytes shifted in on the bus so far, as the transport records them.
    pub closed spec fn received(&self) -> Seq<u8> {
        self.spi.received()
    }

    /// Everything done on the control lines since the driver was created.
    pub closed spec fn lines(&self) -> Seq<LineEvent> {
        self.lines.events()
    }

    /// Byte shifted out while reading.
    pub closed spec fn dummy(&self) -> u8 {
        self.spi.dummy()
    }

    /// The bytes read in the most recent reply exchange.
    pub closed spec fn last_reply(&self) -> Seq<u8> {
        self.reply@
    }

    /// Bytes of the command frame being sent.
    pub closed spec fn command_length(&self) -> nat {
        self.command_length as nat
    }

    pub closed spec fn bus_ok(&self) -> bool {
        &&& self.spi.wf()
        &&& self.command_length <= MAX_COMMAND_LENGTH
    }

    /// Between operations: both directions of the bus have seen the same
    /// number of bytes, reads shift out `DUMMY_DATA`, and no command is open.
    pub open spec fn wf(&self) -> bool {
        &&& self.bus_ok()
        &&& self.sent().len() == self.received().len()
        &&& self.dummy() == DUMMY_DATA
        &&& self.command_length() == 0
    }

    /// `self` went from `before` through a command exchange for `frame` and
    /// then a reply exchange in which `last_reply()` was read: on the lines,
    /// two gated frames; on the bus, the frame and its padding, then one
    /// dummy byte out for each reply byte in.
    pub open spec fn after_exchange(&self, before: Self, frame: Seq<u8>) -> bool {
        let skip = before.received().len() + command_out(frame).len();
        &&& self.sent() == before.sent() + command_out(frame) + dummies(self.last_reply().len())
        &&& self.received().len() == self.sent().len()
        &&& self.received().take(before.received().len() as int) == before.received()
        &&& self.received().skip(skip as int) == self.last_reply()
        &&& self.lines() == before.lines() + gated() + gated()
    }

    /// `self` went from `before` through one gated command exchange for
    /// `frame`.
    pub open spec fn after_command(&self, before: Self, frame: Seq<u8>) -> bool {
        &&& self.sent() == before.sent() + command_out(frame)
        &&& self.received().len() == self.sent().len()
        &&& self.received().take(before.received().len() as int) == before.received()
        &&& self.lines() == before.lines() + gated()
    }

    /// `self` went from `before` through one gated reply exchange in which
    /// `last_reply()` was read.
    pub open spec fn after_reply(&self, before: Self) -> bool {
        &&& self.sent() == before.sent() + dummies(self.last_reply().len())
        &&& self.received() == before.received() + self.last_reply()
        &&& self.lines() == before.lines() + gated()
    }

    /// A command exchange followed by a reply exchange.
    proof fn lemma_exchange(a: Self, m: Self, c: Self, frame: Seq<u8>)
        requires
            a.sent().len() == a.received().len(),
            m.after_command(a, frame),
            c.after_reply(m),
        ensures
            c.after_exchange(a, frame),
    {
        assert(c.sent() =~= a.sent() + command_out(frame) + dummies(c.last_reply().len()));
        assert(c.received().take(m.received().len() as int) =~= m.received());
        lemma_prefix_trans(a.received(), m.received(), c.received());
        assert(c.received().skip((a.received().len() + command_out(frame).len()) as int) =~= c.last_reply());
        assert(c.lines() =~= a.lines() + gated() + gated());
    }

    /// Takes over the transport and the lines and resets the co-processor:
    /// reset is held for 10 ms, then the co-processor gets 750 ms to boot.
    /// Reads shift out `DUMMY_DATA` from then on.
    pub fn new(spi: Spi<D>, lines: L) -> (r: Self)
        requires
            spi.wf(),
        ensures
            r.wf(),
            r.dummy() == DUMMY_DATA,
            r.sent() == spi.sent(),
            r.received() == spi.received(),
            r.lines() == startup_lines(),
    {
        let mut spi = spi;
        let mut lines = Lines::new(lines);
        spi.set_dummy_data(DUMMY_DATA);
        lines.set_select(false);
        lines.set_aux(true);
        lines.set_reset(true);
        lines.delay_ms(10);
        lines.set_reset(false);
        lines.delay_ms(750);
        assert(lines.events() =~= startup_lines());
        Esp32 { spi, lines, command_length: 0, reply: Ghost(Seq::empty()) }
    }

    fn esp_select(&mut self)
        ensures
            final(self).lines() == old(self).lines().push(LineEvent::Select(true)),
            final(self).spi == old(self).spi,
            final(self).command_length == old(self).command_length,
            final(self).last_reply() == old(self).last_reply(),
    {
        self.lines.set_select(true);
    }

    fn esp_deselect(&mut self)
        ensures
            final(self).lines() == old(self).lines().push(LineEvent::Select(false)),
            final(self).spi == old(self).spi,
            final(self).command_length == old(self).command_length,
            final(self).last_reply() == old(self).last_reply(),
    {
        self.lines.set_select(false);
    }

    fn wait_for_esp_ready(&mut self)
        ensures
            final(self).lines() == old(self).lines().push(LineEvent::WaitReady),
            final(self).spi == old(self).spi,
            final(self).command_length == old(self).command_length,
            final(self).last_reply() == old(self).last_reply(),
    {
        self.lines.wait_ready();
    }

    fn wait_for_esp_ack(&mut self)
        ensures
            final(self).lines() == old(self).lines().push(LineEvent::WaitAck),
            final(self).spi == old(self).spi,
            final(self).command_length == old(self).command_length,
            final(self).last_reply() == old(self).last_reply(),
    {
        self.lines.wait_ack();
    }

    /// The handshake gate that precedes every frame.
    fn wait_for_esp_select(&mut self)
        ensures
            final(self).lines() == old(self).lines() + gate(),
            final(self).spi == old(self).spi,
            final(self).command_length == old(self).command_length,
            final(self).last_reply() == old(self).last_reply(),
    {
        self.wait_for_esp_ready();
        self.esp_select();
        self.wait_for_esp_ack();
        assert(self.lines() =~= old(self).lines() + gate());
    }

    /// Writes `data` as part of the command frame.
    fn send(&mut self, data: &[u8])
        requires
            old(self).bus_ok(),
            old(self).command_length + data@.len() <= MAX_COMMAND_LENGTH,
        ensures
            final(self).bus_ok(),
            final(self).sent() == old(self).sent() + data@,
            final(self).received().len() == old(self).received().len() + data@.len(),
            final(self).received().take(old(self).received().len() as int) == old(self).received(),
            final(self).dummy() == old(self).dummy(),
            final(self).lines() == old(self).lines(),
            final(self).command_length == old(self).command_length + data@.len(),
            final(self).last_reply() == old(self).last_reply(),
    {
        self.spi.write(data);
        self.command_length = self.command_length + data.len() as u32;
    }

    /// Reads one byte of a reply.
    fn recv(&mut self) -> (r: u8)
        requires
            old(self).bus_ok(),
        ensures
            final(self).bus_ok(),
            final(self).sent() == old(self).sent().push(old(self).dummy()),
            final(self).received() == old(self).received().push(r),
            final(self).dummy() == old(self).dummy(),
            final(self).lines() == old(self).lines(),
            final(self).reply@ == old(self).reply@.push(r),
            final(self).command_length == old(self).command_length,
    {
        let b = self.spi.read_byte();
        self.reply = Ghost(self.reply@.push(b));
        b
    }

    /// Begins a command frame after the handshake: start marker, opcode
    /// with the reply bit cleared, and parameter count. The byte counter
    /// starts at these three bytes.
    pub fn start_cmd(&mut self, cmd: u8, num_param: u8)
        requires
            old(self).wf(),
        ensures
            final(self).bus_ok(),
            final(self).sent() == old(self).sent() + seq![START_CMD, cmd & !REPLY_FLAG, num_param],
            final(self).received().len() == final(self).sent().len(),
            final(self).received().take(old(self).received().len() as int) == old(self).received(),
            final(self).dummy() == old(self).dummy(),
            final(self).lines() == old(self).lines() + gate(),
            final(self).command_length() == 3,
            final(self).last_reply() == old(self).last_reply(),
    {
        self.wait_for_esp_select();
        let head = [START_CMD, cmd & !REPLY_FLAG, num_param];
        self.send(head.as_slice());
        assert(head@ =~= seq![START_CMD, cmd & !REPLY_FLAG, num_param]);
    }

    /// Sends a parameter with a one-byte length prefix.
    pub fn send_param(&mut self, param: &[u8])
        requires
            old(self).bus_ok(),
            param@.len() < 256,
            old(self).command_length() + param@.len() + 1 <= MAX_COMMAND_LENGTH,
        ensures
            final(self).bus_ok(),
            final(self).sent() == old(self).sent() + scalar(param@),
            final(self).received().len() == old(self).received().len() + scalar(param@).len(),
            final(self).received().take(old(self).received().len() as int) == old(self).received(),
            final(self).dummy() == old(self).dummy(),
            final(self).lines() == old(self).lines(),
            final(self).command_length() == old(self).command_length() + param@.len() + 1,
            final(self).last_reply() == old(self).last_reply(),
    {
        let len = [param.len() as u8];
        self.send(len.as_slice());
        let ghost mid = self.received();
        self.send(param);
        proof {
            assert(self.sent() =~= old(self).sent() + scalar(param@));
            lemma_prefix_trans(old(self).received(), mid, self.received());
        }
    }

    /// Sends a payload with a two-byte length prefix, high byte first.
    pub fn send_buffer(&mut self, param: &[u8])
        requires
            old(self).bus_ok(),
            param@.len() < 0x1_0000,
            old(self).command_length() + param@.len() + 2 <= MAX_COMMAND_LENGTH,
        ensures
            final(self).bus_ok(),
            final(self).sent() == old(self).sent() + bulk(param@),
            final(self).received().len() == old(self).received().len() + bulk(param@).len(),
            final(self).received().take(old(self).received().len() as int) == old(self).received(),
            final(self).dummy() == old(self).dummy(),
            final(self).lines() == old(self).lines(),
            final(self).command_length() == old(self).command_length() + param@.len() + 2,
            final(self).last_reply() == old(self).last_reply(),
    {
        let len = [(param.len() / 256) as u8, (param.len() % 256) as u8];
        self.send(len.as_slice());
        let ghost mid = self.received();
        self.send(param);
        proof {
            assert(self.sent() =~= old(self).sent() + bulk(param@));
            lemma_prefix_trans(old(self).received(), mid, self.received());
        }
    }

    /// Closes a command: the end marker, padding reads with the dummy byte
    /// up to a multiple of four bytes, and the release of chip-select. The
    /// byte counter is back to zero.
    #[verifier::spinoff_prover]
    pub fn end_cmd(&mut self)
        requires
            old(self).bus_ok(),
            old(self).command_length() + 1 <= MAX_COMMAND_LENGTH,
        ensures
            final(self).bus_ok(),
            final(self).sent() == old(self).sent() + seq![END_CMD] + Seq::new(
                padding(old(self).command_length() + 1),
                |i: int| old(self).dummy(),
            ),
            final(self).received().len() == old(self).received().len() + 1 + padding(
                old(self).command_length() + 1,
            ),
            final(self).received().take(old(self).received().len() as int) == old(self).received(),
            final(self).dummy() == old(self).dummy(),
            final(self).lines() == old(self).lines().push(LineEvent::Select(false)),
            final(self).command_length() == 0,
            final(self).last_reply() == old(self).last_reply(),
    {
        let end = [END_CMD];
        self.send(end.as_slice());
        assert(end@ =~= seq![END_CMD]);
        let ghost s1 = self.sent();
        let ghost r1 = self.received();
        let ghost c1 = self.command_length as nat;
        while self.command_length % 4 != 0
            invariant
                self.bus_ok(),
                c1 <= self.command_length <= c1 + 3,
                self.command_length < MAX_COMMAND_LENGTH + 4,
                (c1 + padding(c1)) % 4 == 0,
                self.command_length % 4 == 0 ==> self.command_length == c1 + padding(c1),
                self.command_length <= c1 + padding(c1),
                self.sent() == s1 + Seq::new((self.command_length - c1) as nat, |i: int| old(self).dummy()),
                self.received().len() == r1.len() + (self.command_length - c1),
                self.received().take(r1.len() as int) == r1,
                self.dummy() == old(self).dummy(),
                self.lines() == old(self).lines(),
                self.last_reply() == old(self).last_reply(),
            decreases c1 + 4 - self.command_length,
        {
            self.spi.read_byte();
            self.command_length = self.command_length + 1;
            assert(self.sent() =~= s1 + Seq::new((self.command_length - c1) as nat, |i: int| old(self).dummy()));
            assert(self.received().take(r1.len() as int) =~= r1);
        }
        assert(self.command_length == c1 + padding(c1));
        assert(c1 == old(self).command_length() + 1);
        let ghost s2 = self.sent();
        let ghost r2 = self.received();
        self.command_length = 0;
        self.esp_deselect();
        assert(self.sent() == s2);
        assert(self.received() == r2);
        assert(self.sent() =~= old(self).sent() + seq![END_CMD] + Seq::new(
            padding(old(self).command_length() + 1),
            |i: int| old(self).dummy(),
        ));
        proof {
            lemma_prefix_trans(old(self).received(), r1, self.received());
        }
    }

    /// Reads one reply frame for `cmd` into `buffer`, byte by byte, until the
    /// frame is complete or an error stops it.
    fn get_response_impl<B: GenBuffer>(
        &mut self,
        cmd: u8,
        buffer: &mut B,
        expected: Option<u8>,
        keep_first: bool,
    ) -> (r: Result<(), Esp32Error>)
        requires
            old(self).bus_ok(),
            old(self).dummy() == DUMMY_DATA,
            old(buffer).valid(),
        ensures
            final(self).bus_ok(),
            final(buffer).valid(),
            final(self).command_length == old(self).command_length,
            final(self).sent() == old(self).sent() + dummies(final(self).last_reply().len()),
            final(self).received() == old(self).received() + final(self).last_reply(),
            final(self).dummy() == old(self).dummy(),
            final(self).lines() == old(self).lines(),
            ({
                let rules = rules_for(cmd, expected, keep_first, *old(buffer));
                let s0 = reply_start(old(buffer).stored());
                let end = reply_run(rules, s0, final(self).last_reply());
                &&& reads_exactly(rules, s0, final(self).last_reply())
                &&& r == reply_result(end.phase)
                &&& final(buffer).stored() == end.fields
            }),
    {
        let ghost rules = rules_for(cmd, expected, keep_first, *buffer);
        let ghost s0 = reply_start(buffer.stored());
        self.reply = Ghost(Seq::empty());
        let mut phase = ReplyPhase::AwaitStart { polls: 0 };
        let mut current: Vec<u8> = Vec::new();
        let mut overflowed = false;
        assert(reply_run(rules, s0, self.reply@) == s0);
        assert(old(self).sent() + dummies(0) =~= old(self).sent());
        assert(old(self).received() + self.reply@ =~= old(self).received());
        while !phase.finished()
            invariant
                self.bus_ok(),
                buffer.valid(),
                self.command_length == old(self).command_length,
                self.sent() == old(self).sent() + dummies(self.reply@.len()),
                self.received() == old(self).received() + self.reply@,
                self.dummy() == DUMMY_DATA,
                self.lines() == old(self).lines(),
                rules == rules_for(cmd, expected, keep_first, *buffer),
                reply_run(rules, s0, self.reply@) == (ReplyState {
                    phase,
                    fields: buffer.stored(),
                    current: current@,
                    overflowed,
                }),
                phase_ok(phase),
                phase is FieldData && !overflowed ==> crate::buffer::room_for(
                    buffer.stored(),
                    rules.capacity,
                    rules.max_fields,
                    (current@.len() + phase->FieldData_remaining) as nat,
                ) is Ok,
                forall|k: int|
                    0 <= k < self.reply@.len() ==> !is_done(
                        #[trigger] reply_run(rules, s0, self.reply@.take(k)).phase,
                    ),
            decreases reads_left(phase),
        {
            let ghost rx = self.reply@;
            let ghost st = reply_run(rules, s0, rx);
            let b = self.recv();
            proof {
                assert(self.reply@.drop_last() =~= rx);
                assert(self.sent() =~= old(self).sent() + dummies(self.reply@.len()));
                assert(self.received() =~= old(self).received() + self.reply@);
                assert forall|k: int| 0 <= k < self.reply@.len() implies !is_done(
                    #[trigger] reply_run(rules, s0, self.reply@.take(k)).phase,
                ) by {
                    if k < rx.len() {
                        assert(self.reply@.take(k) =~= rx.take(k));
                    } else {
                        assert(self.reply@.take(k) =~= rx);
                    }
                }
                crate::protocol::lemma_step_progress(rules, st, b);
            }
            phase = match phase {
                ReplyPhase::AwaitStart { polls } => {
                    if b == START_CMD {
                        ReplyPhase::Opcode
                    } else if b == ERR_CMD {
                        ReplyPhase::Failed(Esp32Error::ErrCmd)
                    } else if polls + 1 >= BYTE_TIMEOUT {
                        ReplyPhase::Failed(Esp32Error::WaitForByteTimeout)
                    } else {
                        ReplyPhase::AwaitStart { polls: polls + 1 }
                    }
                },
                ReplyPhase::Opcode => {
                    if b == cmd | REPLY_FLAG {
                        ReplyPhase::Count
                    } else {
                        ReplyPhase::Failed(Esp32Error::UnexpectedByte)
                    }
                },
                ReplyPhase::Count => {
                    if expected.is_some() && b != expected.unwrap() {
                        ReplyPhase::Failed(Esp32Error::WrongNumberOfResponseParams)
                    } else if b == 0 {
                        ReplyPhase::End
                    } else {
                        ReplyPhase::FieldSize { left: b }
                    }
                },
                ReplyPhase::FieldSize { left } => {
                    if overflowed {
                        next_field_phase(left, b)
                    } else {
                        match buffer.check_room(b as usize) {
                            Err(e) => {
                                if !keep_first {
                                    ReplyPhase::Failed(Esp32Error::ResponseBufferError(e))
                                } else {
                                    overflowed = true;
                                    next_field_phase(left, b)
                                }
                            },
                            Ok(()) => {
                                current = Vec::new();
                                if b == 0 {
                                    let added = buffer.add_field(current.as_slice());
                                    assert(added is Ok);
                                    assert(current@ =~= Seq::<u8>::empty());
                                }
                                next_field_phase(left, b)
                            },
                        }
                    }
                },
                ReplyPhase::FieldData { left, remaining } => {
                    if !overflowed {
                        current.push(b);
                    }
                    if remaining > 1 {
                        ReplyPhase::FieldData { left, remaining: remaining - 1 }
                    } else {
                        if !overflowed {
                            let added = buffer.add_field(current.as_slice());
                            assert(added is Ok);
                            current = Vec::new();
                        }
                        next_phase_after_field(left)
                    }
                },
                ReplyPhase::End => {
                    if b == END_CMD {
                        ReplyPhase::Complete
                    } else {
                        ReplyPhase::Failed(Esp32Error::UnexpectedByte)
                    }
                },
                _ => phase,
            };
            assert(reply_run(rules, s0, self.reply@) == reply_step(rules, st, b));
        }
        match phase {
            ReplyPhase::Failed(e) => Err(e),
            _ => Ok(()),
        }
    }
}

impl<D: SpiDevice, L: ControlLines> Esp32<D, L> {
    /// One gated reply exchange for `cmd` read into `buffer`. After the
    /// handshake the reply frame is read byte by byte until it is complete
    /// or an error stops it; chip-select is released last.
    pub fn get_response<B: GenBuffer>(
        &mut self,
        cmd: u8,
        buffer: &mut B,
        expected: Option<u8>,
        keep_first: bool,
    ) -> (r: Result<(), Esp32Error>)
        requires
            old(self).wf(),
            old(buffer).valid(),
        ensures
            final(self).wf(),
            final(buffer).valid(),
            final(self).after_reply(*old(self)),
            ({
                let rules = rules_for(cmd, expected, keep_first, *old(buffer));
                let s0 = reply_start(old(buffer).stored());
                let end = reply_run(rules, s0, final(self).last_reply());
                &&& reads_exactly(rules, s0, final(self).last_reply())
                &&& r == reply_result(end.phase)
                &&& final(buffer).stored() == end.fields
            }),
    {
        self.wait_for_esp_select();
        let response = self.get_response_impl(cmd, buffer, expected, keep_first);
        self.esp_deselect();
        assert(self.lines() =~= old(self).lines() + gated());
        response
    }

    /// A reply of one field of one byte.
    fn get_response_u8(&mut self, cmd: u8) -> (r: Result<u8, Esp32Error>)
        requires
            old(self).wf(),
        ensures
            final(self).wf(),
            final(self).after_reply(*old(self)),
            reads_exactly(single_field_rules(cmd, 1), reply_start(Seq::empty()), final(self).last_reply()),
            r == reply_byte(cmd, final(self).last_reply()),
    {
        let mut buffer: Buffer<1, 2> = Buffer::new();
        self.get_response(cmd, &mut buffer, Some(1), false)?;
        match buffer.field_as_u8(0) {
            Ok(v) => Ok(v),
            Err(e) => Err(Esp32Error::ResponseBufferError(e)),
        }
    }

    /// A reply of one field of four bytes, read as a signed integer in the
    /// platform's byte order.
    fn get_response_i32(&mut self, cmd: u8) -> (r: Result<i32, Esp32Error>)
        requires
            old(self).wf(),
        ensures
            final(self).wf(),
            final(self).after_reply(*old(self)),
            reads_exactly(single_field_rules(cmd, 4), reply_start(Seq::empty()), final(self).last_reply()),
            match reply_field(single_field_rules(cmd, 4), final(self).last_reply(), 0, 4) {
                Ok(f) => r is Ok && (r->Ok_0 as int == i32_le(f) || r->Ok_0 as int == i32_be(f)),
                Err(e) => r == Err::<i32, Esp32Error>(e),
            },
    {
        let mut buffer: Buffer<4, 2> = Buffer::new();
        self.get_response(cmd, &mut buffer, Some(1), false)?;
        match buffer.field_as_i32(0) {
            Ok(v) => Ok(v),
            Err(e) => Err(Esp32Error::ResponseBufferError(e)),
        }
    }

    /// A status reply: success when the co-processor answers `1`.
    fn check_response_status(&mut self, cmd: u8) -> (r: Result<(), Esp32Error>)
        requires
            old(self).wf(),
        ensures
            final(self).wf(),
            final(self).after_reply(*old(self)),
            reads_exactly(single_field_rules(cmd, 1), reply_start(Seq::empty()), final(self).last_reply()),
            r == status_of(reply_byte(cmd, final(self).last_reply())),
    {
        let status = self.get_response_u8(cmd)?;
        if status == 1 {
            Ok(())
        } else {
            Err(Esp32Error::ErrorCode(status))
        }
    }

    /// Sends a command whose parameters, already encoded, are `body`.
    fn command(&mut self, cmd: u8, n: u8, body: &[u8])
        requires
            old(self).wf(),
            body@.len() < 0x1_0000,
        ensures
            final(self).wf(),
            final(self).after_command(*old(self), command_frame(cmd, n, body@)),
            final(self).last_reply() == old(self).last_reply(),
    {
        self.start_cmd(cmd, n);
        let ghost r1 = self.received();
        self.send(body);
        let ghost r2 = self.received();
        self.end_cmd();
        proof {
            let frame = command_frame(cmd, n, body@);
            assert(frame =~= seq![START_CMD, cmd & !REPLY_FLAG, n] + body@ + seq![END_CMD]);
            assert(self.sent() =~= old(self).sent() + command_out(frame));
            lemma_prefix_trans(old(self).received(), r1, r2);
            lemma_prefix_trans(old(self).received(), r2, self.received());
            assert(self.lines() =~= old(self).lines() + gated());
        }
    }

    /// Sets analog output `pin` of the co-processor to `value`.
    pub fn analog_write(&mut self, pin: u8, value: u8) -> (r: Result<(), Esp32Error>)
        requires
            old(self).wf(),
        ensures
            final(self).wf(),
            final(self).after_exchange(
                *old(self),
                command_frame(SET_ANALOG_WRITE, 2, scalar(seq![pin]) + scalar(seq![value])),
            ),
            reads_exactly(
                single_field_rules(SET_ANALOG_WRITE, 1),
                reply_start(Seq::empty()),
                final(self).last_reply(),
            ),
            r == status_of(reply_byte(SET_ANALOG_WRITE, final(self).last_reply())),
    {
        let body = [1u8, pin, 1u8, value];
        self.command(SET_ANALOG_WRITE, 2, body.as_slice());
        assert(body@ =~= scalar(seq![pin]) + scalar(seq![value]));
        let ghost mid = *self;
        let r = self.check_response_status(SET_ANALOG_WRITE);
        proof {
            Self::lemma_exchange(*old(self), mid, *self, command_frame(SET_ANALOG_WRITE, 2, body@));
        }
        r
    }

    /// Asks the co-processor to scan for networks and reads the names it
    /// found into `ssids`. Names that do not fit are read and dropped, so
    /// that the reply is consumed whole.
    pub fn scan_networks<B: GenBuffer>(&mut self, ssids: &mut B) -> (r: Result<(), Esp32Error>)
        requires
            old(self).wf(),
            old(ssids).valid(),
        ensures
            final(self).wf(),
            final(ssids).valid(),
            final(self).after_exchange(*old(self), frame0(SCAN_NETWORKS)),
            ({
                let rules = rules_for(SCAN_NETWORKS, None, true, *old(ssids));
                let s0 = reply_start(old(ssids).stored());
                let end = reply_run(rules, s0, final(self).last_reply());
                &&& reads_exactly(rules, s0, final(self).last_reply())
                &&& r == reply_result(end.phase)
                &&& final(ssids).stored() == end.fields
            }),
    {
        self.command0(SCAN_NETWORKS);
        let ghost mid = *self;
        let r = self.get_response(SCAN_NETWORKS, ssids, None, true);
        proof {
            Self::lemma_exchange(*old(self), mid, *self, frame0(SCAN_NETWORKS));
        }
        r
    }

    /// Sends a command with one one-byte parameter.
    fn command1(&mut self, cmd: u8, param: u8)
        requires
            old(self).wf(),
        ensures
            final(self).wf(),
            final(self).after_command(*old(self), frame1(cmd, param)),
            final(self).last_reply() == old(self).last_reply(),
    {
        let body = [1u8, param];
        self.command(cmd, 1, body.as_slice());
        assert(body@ =~= scalar(seq![param]));
    }

    /// Sends a command without parameters.
    fn command0(&mut self, cmd: u8)
        requires
            old(self).wf(),
        ensures
            final(self).wf(),
            final(self).after_command(*old(self), frame0(cmd)),
            final(self).last_reply() == old(self).last_reply(),
    {
        let body: [u8; 0] = [];
        self.command(cmd, 0, body.as_slice());
        assert(body@ =~= Seq::<u8>::empty());
    }

    /// Channel of the scanned network at `idx`.
    pub fn get_channel(&mut self, idx: u8) -> (r: Result<u8, Esp32Error>)
        requires
            old(self).wf(),
        ensures
            final(self).wf(),
            final(self).after_exchange(*old(self), frame1(GET_IDX_CHANNEL, idx)),
            reads_exactly(single_field_rules(GET_IDX_CHANNEL, 1), reply_start(Seq::empty()), final(self).last_reply()),
            r == reply_byte(GET_IDX_CHANNEL, final(self).last_reply()),
    {
        self.command1(GET_IDX_CHANNEL, idx);
        let ghost mid = *self;
        let r = self.get_response_u8(GET_IDX_CHANNEL);
        proof {
            Self::lemma_exchange(*old(self), mid, *self, frame1(GET_IDX_CHANNEL, idx));
        }
        r
    }

    /// Signal strength of the scanned network at `idx`.
    pub fn get_rssi(&mut self, idx: u8) -> (r: Result<i32, Esp32Error>)
        requires
            old(self).wf(),
        ensures
            final(self).wf(),
            final(self).after_exchange(*old(self), frame1(GET_IDX_RSSI, idx)),
            reads_exactly(single_field_rules(GET_IDX_RSSI, 4), reply_start(Seq::empty()), final(self).last_reply()),
            match reply_field(single_field_rules(GET_IDX_RSSI, 4), final(self).last_reply(), 0, 4) {
                Ok(f) => r is Ok && (r->Ok_0 as int == i32_le(f) || r->Ok_0 as int == i32_be(f)),
                Err(e) => r == Err::<i32, Esp32Error>(e),
            },
    {
        self.command1(GET_IDX_RSSI, idx);
        let ghost mid = *self;
        let r = self.get_response_i32(GET_IDX_RSSI);
        proof {
            Self::lemma_exchange(*old(self), mid, *self, frame1(GET_IDX_RSSI, idx));
        }
        r
    }

    /// Encryption type of the scanned network at `idx`.
    pub fn get_encryption_type(&mut self, idx: u8) -> (r: Result<EncryptionType, Esp32Error>)
        requires
            old(self).wf(),
        ensures
            final(self).wf(),
            final(self).after_exchange(*old(self), frame1(GET_IDX_ENCT, idx)),
            reads_exactly(single_field_rules(GET_IDX_ENCT, 1), reply_start(Seq::empty()), final(self).last_reply()),
            r == match reply_byte(GET_IDX_ENCT, final(self).last_reply()) {
                Ok(b) => encryption_from(b),
                Err(e) => Err(e),
            },
    {
        self.command1(GET_IDX_ENCT, idx);
        let ghost mid = *self;
        let response = self.get_response_u8(GET_IDX_ENCT);
        proof {
            Self::lemma_exchange(*old(self), mid, *self, frame1(GET_IDX_ENCT, idx));
        }
        let b = response?;
        EncryptionType::from_byte(b)
    }

    /// Sets the network name and passphrase to join.
    pub fn wifi_set_passphrase(&mut self, ssid: &str, passphrase: &str) -> (r: Result<(), Esp32Error>)
        requires
            old(self).wf(),
            ssid.spec_bytes().len() < 256,
            passphrase.spec_bytes().len() < 256,
        ensures
            final(self).wf(),
            final(self).after_exchange(
                *old(self),
                command_frame(SET_PASSPHRASE, 2, scalar(ssid.spec_bytes()) + scalar(passphrase.spec_bytes())),
            ),
            reads_exactly(single_field_rules(SET_PASSPHRASE, 1), reply_start(Seq::empty()), final(self).last_reply()),
            r == status_of(reply_byte(SET_PASSPHRASE, final(self).last_reply())),
    {
        let a = ssid.as_bytes();
        let b = passphrase.as_bytes();
        let ghost r0 = self.received();
        self.start_cmd(SET_PASSPHRASE, 2);
        let ghost r1 = self.received();
        self.send_param(a);
        let ghost r2 = self.received();
        self.send_param(b);
        let ghost r3 = self.received();
        self.end_cmd();
        let ghost mid = *self;
        let ghost frame = command_frame(SET_PASSPHRASE, 2, scalar(a@) + scalar(b@));
        proof {
            assert(frame =~= seq![START_CMD, SET_PASSPHRASE & !REPLY_FLAG, 2u8] + scalar(a@) + scalar(b@) + seq![END_CMD]);
            assert(self.sent() =~= old(self).sent() + command_out(frame));
            lemma_prefix_trans(r0, r1, r2);
            lemma_prefix_trans(r0, r2, r3);
            lemma_prefix_trans(r0, r3, self.received());
            assert(self.lines() =~= old(self).lines() + gated());
        }
        let r = self.check_response_status(SET_PASSPHRASE);
        proof {
            Self::lemma_exchange(*old(self), mid, *self, frame);
        }
        r
    }

    /// Connection state of the co-processor.
    pub fn get_conn_status(&mut self) -> (r: Result<ConnectionStatus, Esp32Error>)
        requires
            old(self).wf(),
        ensures
            final(self).wf(),
            final(self).after_exchange(*old(self), frame0(GET_CONN_STATUS)),
            reads_exactly(single_field_rules(GET_CONN_STATUS, 1), reply_start(Seq::empty()), final(self).last_reply()),
            r == match reply_byte(GET_CONN_STATUS, final(self).last_reply()) {
                Ok(b) => conn_status_from(b),
                Err(e) => Err(e),
            },
    {
        self.command0(GET_CONN_STATUS);
        let ghost mid = *self;
        let response = self.get_response_u8(GET_CONN_STATUS);
        proof {
            Self::lemma_exchange(*old(self), mid, *self, frame0(GET_CONN_STATUS));
        }
        let status = response?;
        ConnectionStatus::from_byte(status)
    }

    /// Address, network mask and gateway of the co-processor.
    pub fn get_network_data(&mut self) -> (r: Result<(IpV4, IpV4, IpV4), Esp32Error>)
        requires
            old(self).wf(),
        ensures
            final(self).wf(),
            final(self).after_exchange(*old(self), frame0(GET_IP_ADDR)),
            reads_exactly(network_rules(), reply_start(Seq::empty()), final(self).last_reply()),
            ({
                let rx = final(self).last_reply();
                match (
                    reply_field(network_rules(), rx, 0, 4),
                    reply_field(network_rules(), rx, 1, 4),
                    reply_field(network_rules(), rx, 2, 4),
                ) {
                    (Err(e), _, _) => r == Err::<(IpV4, IpV4, IpV4), Esp32Error>(e),
                    (Ok(_), Err(e), _) => r == Err::<(IpV4, IpV4, IpV4), Esp32Error>(e),
                    (Ok(_), Ok(_), Err(e)) => r == Err::<(IpV4, IpV4, IpV4), Esp32Error>(e),
                    (Ok(a), Ok(m), Ok(g)) => r is Ok && r->Ok_0.0.0@ == a && r->Ok_0.1.0@ == m
                        && r->Ok_0.2.0@ == g,
                }
            }),
    {
        self.command0(GET_IP_ADDR);
        let ghost mid = *self;
        let mut buffer: Buffer<12, 4> = Buffer::new();
        let response = self.get_response(GET_IP_ADDR, &mut buffer, Some(3), false);
        proof {
            Self::lemma_exchange(*old(self), mid, *self, frame0(GET_IP_ADDR));
        }
        response?;
        let addr = match buffer.field_as_slice_fixed(0, 4) {
            Ok(s) => s,
            Err(e) => return Err(Esp32Error::ResponseBufferError(e)),
        };
        let mask = match buffer.field_as_slice_fixed(1, 4) {
            Ok(s) => s,
            Err(e) => return Err(Esp32Error::ResponseBufferError(e)),
        };
        let gateway = match buffer.field_as_slice_fixed(2, 4) {
            Ok(s) => s,
            Err(e) => return Err(Esp32Error::ResponseBufferError(e)),
        };
        Ok((IpV4::from_slice(addr), IpV4::from_slice(mask), IpV4::from_slice(gateway)))
    }

    /// Allocates a socket on the co-processor.
    pub fn get_socket(&mut self) -> (r: Result<Socket, Esp32Error>)
        requires
            old(self).wf(),
        ensures
            final(self).wf(),
            final(self).after_exchange(*old(self), frame0(GET_SOCKET)),
            reads_exactly(single_field_rules(GET_SOCKET, 1), reply_start(Seq::empty()), final(self).last_reply()),
            r == match reply_byte(GET_SOCKET, final(self).last_reply()) {
                Ok(b) => Ok(Socket(b)),
                Err(e) => Err(e),
            },
    {
        self.command0(GET_SOCKET);
        let ghost mid = *self;
        let response = self.get_response_u8(GET_SOCKET);
        proof {
            Self::lemma_exchange(*old(self), mid, *self, frame0(GET_SOCKET));
        }
        let socket_id = response?;
        Ok(Socket(socket_id))
    }

    /// Starts a client connection from socket `sock` to `ip`:`port`; the
    /// port is sent in the platform's byte order.
    pub fn start_client(&mut self, ip: IpV4, port: u16, sock: Socket, mode: ProtocolMode) -> (r: Result<(), Esp32Error>)
        requires
            old(self).wf(),
        ensures
            final(self).wf(),
            exists|pb: Seq<u8>| #![trigger client_body(ip, pb, sock, mode)]
                (pb == u16_le(port) || pb == u16_be(port)) && final(self).after_exchange(
                    *old(self),
                    command_frame(START_CLIENT_TCP, 4, client_body(ip, pb, sock, mode)),
                ),
            reads_exactly(single_field_rules(START_CLIENT_TCP, 1), reply_start(Seq::empty()), final(self).last_reply()),
            r == status_of(reply_byte(START_CLIENT_TCP, final(self).last_reply())),
    {
        let port_bytes = u16_to_native(port);
        let body = [
            4u8,
            ip.0[0],
            ip.0[1],
            ip.0[2],
            ip.0[3],
            2u8,
            port_bytes[0],
            port_bytes[1],
            1u8,
            sock.0,
            1u8,
            mode.as_byte(),
        ];
        let ghost b = client_body(ip, port_bytes@, sock, mode);
        assert(body@ =~= b);
        self.command(START_CLIENT_TCP, 4, body.as_slice());
        let ghost mid = *self;
        let r = self.check_response_status(START_CLIENT_TCP);
        proof {
            Self::lemma_exchange(*old(self), mid, *self, command_frame(START_CLIENT_TCP, 4, b));
        }
        r
    }

    /// Appends `buf` to the send buffer of socket `sock`.
    pub fn insert_data_buf(&mut self, sock: Socket, buf: &[u8]) -> (r: Result<(), Esp32Error>)
        requires
            old(self).wf(),
            buf@.len() < 0x1_0000,
        ensures
            final(self).wf(),
            final(self).after_exchange(
                *old(self),
                command_frame(INSERT_DATA_BUF, 2, scalar(seq![sock.0]) + bulk(buf@)),
            ),
            reads_exactly(single_field_rules(INSERT_DATA_BUF, 1), reply_start(Seq::empty()), final(self).last_reply()),
            r == status_of(reply_byte(INSERT_DATA_BUF, final(self).last_reply())),
    {
        let s = [sock.0];
        let ghost r0 = self.received();
        self.start_cmd(INSERT_DATA_BUF, 2);
        let ghost r1 = self.received();
        self.send_param(s.as_slice());
        let ghost r2 = self.received();
        self.send_buffer(buf);
        let ghost r3 = self.received();
        self.end_cmd();
        let ghost mid = *self;
        let ghost frame = command_frame(INSERT_DATA_BUF, 2, scalar(seq![sock.0]) + bulk(buf@));
        proof {
            assert(s@ =~= seq![sock.0]);
            assert(frame =~= seq![START_CMD, INSERT_DATA_BUF & !REPLY_FLAG, 2u8] + scalar(s@) + bulk(buf@) + seq![END_CMD]);
            assert(self.sent() =~= old(self).sent() + command_out(frame));
            lemma_prefix_trans(r0, r1, r2);
            lemma_prefix_trans(r0, r2, r3);
            lemma_prefix_trans(r0, r3, self.received());
            assert(self.lines() =~= old(self).lines() + gated());
        }
        let r = self.check_response_status(INSERT_DATA_BUF);
        proof {
            Self::lemma_exchange(*old(self), mid, *self, frame);
        }
        r
    }

    /// Sends the buffered datagram of socket `sock`.
    pub fn send_data_udp(&mut self, sock: Socket) -> (r: Result<(), Esp32Error>)
        requires
            old(self).wf(),
        ensures
            final(self).wf(),
            final(self).after_exchange(*old(self), frame1(SEND_DATA_UDP, sock.0)),
            reads_exactly(single_field_rules(SEND_DATA_UDP, 1), reply_start(Seq::empty()), final(self).last_reply()),
            r == status_of(reply_byte(SEND_DATA_UDP, final(self).last_reply())),
    {
        self.command1(SEND_DATA_UDP, sock.0);
        let ghost mid = *self;
        let r = self.check_response_status(SEND_DATA_UDP);
        proof {
            Self::lemma_exchange(*old(self), mid, *self, frame1(SEND_DATA_UDP, sock.0));
        }
        r
    }
}

/// The phase after a field, with `left` fields remaining (this one included).
fn next_phase_after_field(left: u8) -> (r: ReplyPhase)
    ensures
        r == after_field(left),
{
    if left <= 1 {
        ReplyPhase::End
    } else {
        ReplyPhase::FieldSize { left: left - 1 }
    }
}

/// The phase in which a field of `size` bytes is read.
fn next_field_phase(left: u8, size: u8) -> (r: ReplyPhase)
    ensures
        r == field_phase(left, size),
{
    if size == 0 {
        next_phase_after_field(left)
    } else {
        ReplyPhase::FieldData { left, remaining: size }
    }
}

} // verus!
