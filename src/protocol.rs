//! Wire format of the co-processor protocol: command frames, and the
//! byte-by-byte rules by which a reply frame is read.
use vstd::prelude::*;
use crate::buffer::{fixed_field, room_for, total_len, BufferError};

verus! {

/// Marks the start of every frame.
pub const START_CMD: u8 = 0xE0;
/// Marks the end of every frame.
pub const END_CMD: u8 = 0xEE;
/// Sent by the co-processor in place of a reply to signal an error.
pub const ERR_CMD: u8 = 0xEF;
/// Set in the opcode byte of a reply.
pub const REPLY_FLAG: u8 = 0x80;
/// Byte shifted out while reading.
pub const DUMMY_DATA: u8 = 0xFF;
/// Number of bytes read while waiting for the start of a reply.
pub const BYTE_TIMEOUT: u32 = 5000;

/// Opcodes of the commands.
pub const SET_PASSPHRASE: u8 = 0x11;
pub const GET_CONN_STATUS: u8 = 0x20;
pub const GET_IP_ADDR: u8 = 0x21;
pub const SCAN_NETWORKS: u8 = 0x27;
pub const START_CLIENT_TCP: u8 = 0x2D;
pub const GET_IDX_RSSI: u8 = 0x32;
pub const GET_IDX_ENCT: u8 = 0x33;
pub const SEND_DATA_UDP: u8 = 0x39;
pub const GET_IDX_CHANNEL: u8 = 0x3D;
pub const GET_SOCKET: u8 = 0x3F;
pub const INSERT_DATA_BUF: u8 = 0x46;
pub const SET_ANALOG_WRITE: u8 = 0x52;

/// Errors of an exchange with the co-processor.
#[derive(Debug, Clone, Copy, PartialEq, Eq, Structural)]
pub enum Esp32Error {
    /// Kept for callers that match on it; the driver does not report it.
    Unknown,
    /// Kept for callers that match on it; the driver reports a missing
    /// frame start as `WaitForByteTimeout`.
    NoStartCmd,
    /// No frame start was seen within the poll budget.
    WaitForByteTimeout,
    /// The co-processor sent the error marker.
    ErrCmd,
    /// A framing byte did not have its expected value.
    UnexpectedByte,
    /// A byte that names no encryption type.
    UnexpectedEncryptionType(u8),
    /// A byte that names no connection status.
    UnexpectedStatus(u8),
    /// A status reply other than success.
    ErrorCode(u8),
    /// The reply did not fit, or did not have the shape, that was asked for.
    ResponseBufferError(BufferError),
    /// The reply had another number of fields than the command calls for.
    WrongNumberOfResponseParams,
}

/// Where a reader of a reply frame stands.
#[derive(Debug, Clone, Copy, PartialEq, Eq, Structural)]
pub enum ReplyPhase {
    /// Waiting for the frame start; `polls` bytes were read so far.
    AwaitStart { polls: u32 },
    /// Next byte: the opcode with the reply flag.
    Opcode,
    /// Next byte: the number of fields.
    Count,
    /// Next byte: the length of a field; `left` fields remain, this one included.
    FieldSize { left: u8 },
    /// Reading a field's bytes; `remaining` of them are still to come.
    FieldData { left: u8, remaining: u8 },
    /// Next byte: the end marker.
    End,
    /// The frame was read completely.
    Complete,
    /// Reading stopped with an error.
    Failed(Esp32Error),
}

/// What a reply is read against: the command it answers, the expected
/// number of fields if any, whether fields that do not fit are skipped
/// (else they are an error), and the limits of the receiving buffer.
pub struct ReplyRules {
    pub cmd: u8,
    pub expected: Option<u8>,
    pub keep_first: bool,
    pub capacity: nat,
    pub max_fields: nat,
}

/// State of a reply reader: its phase, the receiving buffer's fields, the
/// bytes of the field being read, and whether a field was skipped already.
pub struct ReplyState {
    pub phase: ReplyPhase,
    pub fields: Seq<Seq<u8>>,
    pub current: Seq<u8>,
    pub overflowed: bool,
}

/// Whether a reader in phase `p` has stopped.
pub open spec fn is_done(p: ReplyPhase) -> bool {
    p is Complete || p is Failed
}

impl ReplyPhase {
    /// Whether reading has stopped, complete or failed.
    pub fn finished(&self) -> (r: bool)
        ensures
            r == is_done(*self),
    {
        match self {
            ReplyPhase::Complete => true,
            ReplyPhase::Failed(_) => true,
            _ => false,
        }
    }
}

/// The reader's state before any byte, over a buffer holding `fields`.
pub open spec fn reply_start(fields: Seq<Seq<u8>>) -> ReplyState {
    ReplyState {
        phase: ReplyPhase::AwaitStart { polls: 0 },
        fields,
        current: Seq::empty(),
        overflowed: false,
    }
}

/// Phase after a field with `left` fields remaining (this one included).
pub open spec fn after_field(left: u8) -> ReplyPhase {
    if left <= 1 {
        ReplyPhase::End
    } else {
        ReplyPhase::FieldSize { left: (left - 1) as u8 }
    }
}

/// Phase in which a field of `size` bytes is read.
pub open spec fn field_phase(left: u8, size: u8) -> ReplyPhase {
    if size == 0 {
        after_field(left)
    } else {
        ReplyPhase::FieldData { left, remaining: size }
    }
}

/// One byte `b` read by the reader in state `s`.
pub open spec fn reply_step(r: ReplyRules, s: ReplyState, b: u8) -> ReplyState {
    match s.phase {
        ReplyPhase::AwaitStart { polls } => {
            if b == START_CMD {
                ReplyState { phase: ReplyPhase::Opcode, ..s }
            } else if b == ERR_CMD {
                ReplyState { phase: ReplyPhase::Failed(Esp32Error::ErrCmd), ..s }
            } else if polls + 1 >= BYTE_TIMEOUT {
                ReplyState { phase: ReplyPhase::Failed(Esp32Error::WaitForByteTimeout), ..s }
            } else {
                ReplyState { phase: ReplyPhase::AwaitStart { polls: (polls + 1) as u32 }, ..s }
            }
        },
        ReplyPhase::Opcode => {
            if b == r.cmd | REPLY_FLAG {
                ReplyState { phase: ReplyPhase::Count, ..s }
            } else {
                ReplyState { phase: ReplyPhase::Failed(Esp32Error::UnexpectedByte), ..s }
            }
        },
        ReplyPhase::Count => {
            if r.expected is Some && b != r.expected->Some_0 {
                ReplyState {
                    phase: ReplyPhase::Failed(Esp32Error::WrongNumberOfResponseParams),
                    ..s
                }
            } else if b == 0 {
                ReplyState { phase: ReplyPhase::End, ..s }
            } else {
                ReplyState { phase: ReplyPhase::FieldSize { left: b }, ..s }
            }
        },
        ReplyPhase::FieldSize { left } => {
            let room = room_for(s.fields, r.capacity, r.max_fields, b as nat);
            if s.overflowed {
                ReplyState { phase: field_phase(left, b), ..s }
            } else if room is Err && !r.keep_first {
                ReplyState {
                    phase: ReplyPhase::Failed(Esp32Error::ResponseBufferError(room->Err_0)),
                    ..s
                }
            } else if room is Err {
                ReplyState { phase: field_phase(left, b), overflowed: true, ..s }
            } else if b == 0 {
                ReplyState {
                    phase: after_field(left),
                    fields: s.fields.push(Seq::empty()),
                    current: Seq::empty(),
                    ..s
                }
            } else {
                ReplyState { phase: field_phase(left, b), current: Seq::empty(), ..s }
            }
        },
        ReplyPhase::FieldData { left, remaining } => {
            let current = if s.overflowed {
                s.current
            } else {
                s.current.push(b)
            };
            if remaining > 1 {
                ReplyState {
                    phase: ReplyPhase::FieldData { left, remaining: (remaining - 1) as u8 },
                    current,
                    ..s
                }
            } else if s.overflowed {
                ReplyState { phase: after_field(left), ..s }
            } else {
                ReplyState {
                    phase: after_field(left),
                    fields: s.fields.push(current),
                    current: Seq::empty(),
                    ..s
                }
            }
        },
        ReplyPhase::End => {
            if b == END_CMD {
                ReplyState { phase: ReplyPhase::Complete, ..s }
            } else {
                ReplyState { phase: ReplyPhase::Failed(Esp32Error::UnexpectedByte), ..s }
            }
        },
        _ => s,
    }
}

/// The reader's state after reading all of `rx` from state `s`.
pub open spec fn reply_run(r: ReplyRules, s: ReplyState, rx: Seq<u8>) -> ReplyState
    decreases rx.len(),
{
    if rx.len() == 0 {
        s
    } else {
        reply_step(r, reply_run(r, s, rx.drop_last()), rx.last())
    }
}

/// `rx` is exactly what a reader starting in `s` reads: it is done after the
/// last byte and not before.
pub open spec fn reads_exactly(r: ReplyRules, s: ReplyState, rx: Seq<u8>) -> bool {
    &&& is_done(reply_run(r, s, rx).phase)
    &&& forall|k: int| 0 <= k < rx.len() ==> !is_done(#[trigger] reply_run(r, s, rx.take(k)).phase)
}

/// What a reader that is done reports.
pub open spec fn reply_result(p: ReplyPhase) -> Result<(), Esp32Error> {
    match p {
        ReplyPhase::Failed(e) => Err(e),
        _ => Ok(()),
    }
}

/// An upper bound on the bytes that a reader in phase `p` still reads.
pub open spec fn reads_left(p: ReplyPhase) -> nat {
    match p {
        ReplyPhase::AwaitStart { polls } => (BYTE_TIMEOUT - polls) as nat + 65283,
        ReplyPhase::Opcode => 65283,
        ReplyPhase::Count => 65282,
        ReplyPhase::FieldSize { left } => left as nat * 256 + 1,
        ReplyPhase::FieldData { left, remaining } => remaining as nat + (left - 1) as nat * 256 + 1,
        ReplyPhase::End => 1,
        _ => 0,
    }
}

/// The phases that a reader can reach.
pub open spec fn phase_ok(p: ReplyPhase) -> bool {
    match p {
        ReplyPhase::AwaitStart { polls } => polls < BYTE_TIMEOUT,
        ReplyPhase::FieldSize { left } => left >= 1,
        ReplyPhase::FieldData { left, remaining } => left >= 1 && remaining >= 1,
        _ => true,
    }
}

/// Each byte read brings a reader that is not done closer to its end.
pub proof fn lemma_step_progress(r: ReplyRules, s: ReplyState, b: u8)
    requires
        phase_ok(s.phase),
        !is_done(s.phase),
    ensures
        phase_ok(reply_step(r, s, b).phase),
        reads_left(reply_step(r, s, b).phase) < reads_left(s.phase),
{
}

/// A parameter sent with a one-byte length prefix.
pub open spec fn scalar(d: Seq<u8>) -> Seq<u8> {
    seq![d.len() as u8] + d
}

/// A payload sent with a two-byte length prefix, high byte first.
pub open spec fn bulk(d: Seq<u8>) -> Seq<u8> {
    seq![(d.len() / 256) as u8, (d.len() % 256) as u8] + d
}

/// A command frame for opcode `cmd` with `n` parameters encoded in `body`.
pub open spec fn command_frame(cmd: u8, n: u8, body: Seq<u8>) -> Seq<u8> {
    seq![START_CMD, cmd & !REPLY_FLAG, n] + body + seq![END_CMD]
}

/// Bytes read after a frame of `len` bytes so that the exchange is a
/// multiple of four bytes long.
pub open spec fn padding(len: nat) -> nat {
    ((4 - len % 4) % 4) as nat
}

/// Fields encoded as a reply's field list: each one length-prefixed.
pub open spec fn field_list(fields: Seq<Seq<u8>>) -> Seq<u8>
    decreases fields.len(),
{
    if fields.len() == 0 {
        Seq::empty()
    } else {
        field_list(fields.drop_last()) + scalar(fields.last())
    }
}

/// The reply frame that the co-processor sends for opcode `cmd` with `fields`.
pub open spec fn reply_frame(cmd: u8, fields: Seq<Seq<u8>>) -> Seq<u8> {
    seq![START_CMD, cmd | REPLY_FLAG, fields.len() as u8] + field_list(fields) + seq![END_CMD]
}

/// Rules for a reply of one field of at most `size` bytes.
pub open spec fn single_field_rules(cmd: u8, size: nat) -> ReplyRules {
    ReplyRules { cmd, expected: Some(1), keep_first: false, capacity: size, max_fields: 1 }
}

/// The field at `index`, of `size` bytes, of the reply read as `rx` under
/// `r` into an empty buffer.
pub open spec fn reply_field(r: ReplyRules, rx: Seq<u8>, index: int, size: nat) -> Result<
    Seq<u8>,
    Esp32Error,
> {
    let end = reply_run(r, reply_start(Seq::empty()), rx);
    match end.phase {
        ReplyPhase::Failed(e) => Err(e),
        _ => match fixed_field(end.fields, index, size) {
            Ok(f) => Ok(f),
            Err(e) => Err(Esp32Error::ResponseBufferError(e)),
        },
    }
}

/// The one-byte value of the reply to `cmd` read as `rx`.
pub open spec fn reply_byte(cmd: u8, rx: Seq<u8>) -> Result<u8, Esp32Error> {
    match reply_field(single_field_rules(cmd, 1), rx, 0, 1) {
        Ok(f) => Ok(f[0]),
        Err(e) => Err(e),
    }
}

/// A status reply: `1` is success, any other value an error code.
pub open spec fn status_of(v: Result<u8, Esp32Error>) -> Result<(), Esp32Error> {
    match v {
        Ok(b) => if b == 1 {
            Ok(())
        } else {
            Err(Esp32Error::ErrorCode(b))
        },
        Err(e) => Err(e),
    }
}

/// A frame padded as the protocol requires is a multiple of four bytes long.
pub proof fn lemma_padded_length(len: nat)
    ensures
        (len + padding(len)) % 4 == 0,
        padding(len) < 4,
{
}

/// Reading `a` then `b` is reading `a + b`.
pub proof fn lemma_run_append(r: ReplyRules, s: ReplyState, a: Seq<u8>, b: Seq<u8>)
    ensures
        reply_run(r, s, a + b) == reply_run(r, reply_run(r, s, a), b),
    decreases b.len(),
{
    if b.len() == 0 {
        assert(a + b =~= a);
    } else {
        assert((a + b).drop_last() =~= a + b.drop_last());
        lemma_run_append(r, s, a, b.drop_last());
    }
}

/// A reader that is done reads nothing more.
pub proof fn lemma_done_stays(r: ReplyRules, s: ReplyState, x: Seq<u8>)
    requires
        is_done(s.phase),
    ensures
        reply_run(r, s, x) == s,
    decreases x.len(),
{
    if x.len() > 0 {
        lemma_done_stays(r, s, x.drop_last());
    }
}

proof fn lemma_run_one(r: ReplyRules, s: ReplyState, b: u8)
    ensures
        reply_run(r, s, seq![b]) == reply_step(r, s, b),
{
    assert(seq![b].drop_last() =~= Seq::<u8>::empty());
    assert(reply_run(r, s, Seq::<u8>::empty()) == s);
    assert(seq![b].last() == b);
}

proof fn lemma_total_len_push(fields: Seq<Seq<u8>>, f: Seq<u8>)
    ensures
        total_len(fields.push(f)) == total_len(fields) + f.len(),
{
    assert(fields.push(f).drop_last() =~= fields);
}

/// State after the bytes `d` of a kept field are read in state `s`.
pub open spec fn data_read(s: ReplyState, d: Seq<u8>) -> ReplyState {
    let left = s.phase->FieldData_left;
    if d.len() < s.phase->FieldData_remaining {
        ReplyState {
            phase: ReplyPhase::FieldData {
                left,
                remaining: (s.phase->FieldData_remaining - d.len()) as u8,
            },
            current: s.current + d,
            ..s
        }
    } else {
        ReplyState {
            phase: after_field(left),
            fields: s.fields.push(s.current + d),
            current: Seq::empty(),
            ..s
        }
    }
}

/// State after a whole field `f` that fits is read in state `s`.
pub open spec fn field_read(s: ReplyState, f: Seq<u8>) -> ReplyState {
    ReplyState { phase: after_field(s.phase->FieldSize_left), fields: s.fields.push(f), ..s }
}

/// State after the fields `fs`, which all fit, are read in state `s`.
pub open spec fn fields_read(s: ReplyState, fs: Seq<Seq<u8>>) -> ReplyState {
    let left = s.phase->FieldSize_left;
    ReplyState {
        phase: if fs.len() == left {
            ReplyPhase::End
        } else {
            ReplyPhase::FieldSize { left: (left - fs.len()) as u8 }
        },
        fields: s.fields + fs,
        ..s
    }
}

/// A reader that read a whole frame into `fields`.
pub open spec fn completed(fields: Seq<Seq<u8>>) -> ReplyState {
    ReplyState {
        phase: ReplyPhase::Complete,
        fields,
        current: Seq::empty(),
        overflowed: false,
    }
}

/// Reading `d` while a kept field has at least `d.len()` bytes to come.
proof fn lemma_read_data(r: ReplyRules, s: ReplyState, d: Seq<u8>)
    requires
        s.phase is FieldData,
        !s.overflowed,
        s.phase->FieldData_remaining >= d.len(),
        d.len() >= 1,
    ensures
        reply_run(r, s, d) == data_read(s, d),
    decreases d.len(),
{
    if d.len() == 1 {
        lemma_run_one(r, s, d[0]);
        assert(d =~= seq![d[0]]);
        assert(s.current.push(d[0]) =~= s.current + d);
    } else {
        lemma_read_data(r, s, d.drop_last());
        assert(s.current + d.drop_last() + seq![d.last()] =~= s.current + d);
        assert(d.drop_last().push(d.last()) =~= d);
    }
}

/// Reading one length-prefixed field that fits.
proof fn lemma_read_field(r: ReplyRules, s: ReplyState, f: Seq<u8>)
    requires
        s.phase is FieldSize,
        s.phase->FieldSize_left >= 1,
        !s.overflowed,
        s.current == Seq::<u8>::empty(),
        f.len() < 256,
        room_for(s.fields, r.capacity, r.max_fields, f.len()) is Ok,
    ensures
        reply_run(r, s, scalar(f)) == field_read(s, f),
{
    let b = f.len() as u8;
    lemma_run_append(r, s, seq![b], f);
    lemma_run_one(r, s, b);
    let t = reply_step(r, s, b);
    if f.len() == 0 {
        assert(f =~= Seq::<u8>::empty());
        assert(scalar(f) =~= seq![b]);
    } else {
        lemma_read_data(r, t, f);
        assert(Seq::<u8>::empty() + f =~= f);
    }
}

/// Reading a list of fields that all fit.
proof fn lemma_read_fields(r: ReplyRules, s: ReplyState, fs: Seq<Seq<u8>>)
    requires
        s.phase is FieldSize,
        1 <= fs.len() <= s.phase->FieldSize_left,
        !s.overflowed,
        s.current == Seq::<u8>::empty(),
        forall|i: int| 0 <= i < fs.len() ==> #[trigger] fs[i].len() < 256,
        s.fields.len() + fs.len() <= r.max_fields,
        total_len(s.fields + fs) <= r.capacity,
    ensures
        reply_run(r, s, field_list(fs)) == fields_read(s, fs),
    decreases fs.len(),
{
    let left = s.phase->FieldSize_left;
    let last = fs.last();
    let init = fs.drop_last();
    assert(s.fields + fs =~= (s.fields + init).push(last));
    lemma_total_len_push(s.fields + init, last);
    if fs.len() == 1 {
        assert(init =~= Seq::<Seq<u8>>::empty());
        assert(field_list(init) == Seq::<u8>::empty());
        assert(field_list(fs) =~= scalar(last));
        assert(s.fields + init =~= s.fields);
        lemma_read_field(r, s, last);
    } else {
        lemma_read_fields(r, s, init);
        let t = reply_run(r, s, field_list(init));
        lemma_run_append(r, s, field_list(init), scalar(last));
        lemma_read_field(r, t, last);
    }
}

/// State of a reader that has read all of a frame but its end marker.
pub open spec fn awaiting_end(fields: Seq<Seq<u8>>) -> ReplyState {
    ReplyState { phase: ReplyPhase::End, fields, current: Seq::empty(), overflowed: false }
}

/// A reply frame without its end marker, whose fields fit the buffer,
/// leaves the reader waiting for the end marker with the fields added.
proof fn lemma_reply_body(r: ReplyRules, fields0: Seq<Seq<u8>>, fs: Seq<Seq<u8>>)
    requires
        fs.len() < 256,
        forall|i: int| 0 <= i < fs.len() ==> #[trigger] fs[i].len() < 256,
        r.expected is None || r.expected == Some(fs.len() as u8),
        fields0.len() + fs.len() <= r.max_fields,
        total_len(fields0 + fs) <= r.capacity,
    ensures
        reply_frame(r.cmd, fs) == reply_frame(r.cmd, fs).drop_last().push(END_CMD),
        reply_run(r, reply_start(fields0), reply_frame(r.cmd, fs).drop_last()) == awaiting_end(
            fields0 + fs,
        ),
{
    let s0 = reply_start(fields0);
    let n = fs.len() as u8;
    let head = seq![START_CMD, r.cmd | REPLY_FLAG, n];
    let frame = reply_frame(r.cmd, fs);
    assert(frame.drop_last() =~= head + field_list(fs));
    assert(frame =~= frame.drop_last().push(END_CMD));
    assert(head =~= seq![START_CMD] + seq![r.cmd | REPLY_FLAG] + seq![n]);
    lemma_run_append(r, s0, seq![START_CMD] + seq![r.cmd | REPLY_FLAG], seq![n]);
    lemma_run_append(r, s0, seq![START_CMD], seq![r.cmd | REPLY_FLAG]);
    lemma_run_one(r, s0, START_CMD);
    let s1 = reply_step(r, s0, START_CMD);
    lemma_run_one(r, s1, r.cmd | REPLY_FLAG);
    let s2 = reply_step(r, s1, r.cmd | REPLY_FLAG);
    lemma_run_one(r, s2, n);
    let s3 = reply_step(r, s2, n);
    lemma_run_append(r, s0, head, field_list(fs));
    if fs.len() == 0 {
        assert(field_list(fs) == Seq::<u8>::empty());
        assert(head + field_list(fs) =~= head);
        assert(fields0 + fs =~= fields0);
    } else {
        lemma_read_fields(r, s3, fs);
    }
}

/// A reply frame whose fields fit the buffer reads completely and adds
/// exactly its fields, in order.
pub proof fn lemma_reply_round_trip(r: ReplyRules, fields0: Seq<Seq<u8>>, fs: Seq<Seq<u8>>)
    requires
        fs.len() < 256,
        forall|i: int| 0 <= i < fs.len() ==> #[trigger] fs[i].len() < 256,
        r.expected is None || r.expected == Some(fs.len() as u8),
        fields0.len() + fs.len() <= r.max_fields,
        total_len(fields0 + fs) <= r.capacity,
    ensures
        reply_run(r, reply_start(fields0), reply_frame(r.cmd, fs)) == completed(fields0 + fs),
{
    let frame = reply_frame(r.cmd, fs);
    lemma_reply_body(r, fields0, fs);
    lemma_run_append(r, reply_start(fields0), frame.drop_last(), seq![END_CMD]);
    lemma_run_one(r, awaiting_end(fields0 + fs), END_CMD);
}

/// A reply frame whose end marker is replaced by any other byte fails the
/// final check with `UnexpectedByte`.
pub proof fn lemma_reply_missing_end(r: ReplyRules, fields0: Seq<Seq<u8>>, fs: Seq<Seq<u8>>, y: u8)
    requires
        fs.len() < 256,
        forall|i: int| 0 <= i < fs.len() ==> #[trigger] fs[i].len() < 256,
        r.expected is None || r.expected == Some(fs.len() as u8),
        fields0.len() + fs.len() <= r.max_fields,
        total_len(fields0 + fs) <= r.capacity,
        y != END_CMD,
    ensures
        reply_run(r, reply_start(fields0), reply_frame(r.cmd, fs).drop_last().push(y)).phase
            == ReplyPhase::Failed(Esp32Error::UnexpectedByte),
{
    let frame = reply_frame(r.cmd, fs);
    lemma_reply_body(r, fields0, fs);
    assert(frame.drop_last().push(y) =~= frame.drop_last() + seq![y]);
    lemma_run_append(r, reply_start(fields0), frame.drop_last(), seq![y]);
    lemma_run_one(r, awaiting_end(fields0 + fs), y);
}

/// A reply frame whose opcode byte is corrupted to any byte other than the
/// command's opcode with the reply flag fails with `UnexpectedByte`.
pub proof fn lemma_reply_wrong_opcode(r: ReplyRules, fields0: Seq<Seq<u8>>, fs: Seq<Seq<u8>>, x: u8)
    requires
        x != r.cmd | REPLY_FLAG,
    ensures
        reply_run(r, reply_start(fields0), reply_frame(r.cmd, fs).update(1, x)).phase
            == ReplyPhase::Failed(Esp32Error::UnexpectedByte),
{
    let s0 = reply_start(fields0);
    let bad = reply_frame(r.cmd, fs).update(1, x);
    let rest = bad.subrange(2, bad.len() as int);
    assert(bad =~= seq![START_CMD] + seq![x] + rest);
    lemma_run_append(r, s0, seq![START_CMD] + seq![x], rest);
    lemma_run_append(r, s0, seq![START_CMD], seq![x]);
    lemma_run_one(r, s0, START_CMD);
    let s1 = reply_step(r, s0, START_CMD);
    lemma_run_one(r, s1, x);
    lemma_done_stays(r, reply_step(r, s1, x), rest);
}

/// Reader state after `k` bytes of a silent stretch.
pub open spec fn waiting(fields: Seq<Seq<u8>>, k: nat) -> ReplyState {
    ReplyState {
        phase: ReplyPhase::AwaitStart { polls: k as u32 },
        fields,
        current: Seq::empty(),
        overflowed: false,
    }
}

/// Bytes that are neither a frame start nor the error marker.
pub open spec fn silent(rx: Seq<u8>) -> bool {
    forall|i: int| 0 <= i < rx.len() ==> #[trigger] rx[i] != START_CMD && rx[i] != ERR_CMD
}

proof fn lemma_still_waiting(r: ReplyRules, fields: Seq<Seq<u8>>, rx: Seq<u8>, k: nat)
    requires
        silent(rx),
        k <= rx.len(),
        k < BYTE_TIMEOUT,
    ensures
        reply_run(r, reply_start(fields), rx.take(k as int)) == waiting(fields, k),
    decreases k,
{
    if k > 0 {
        lemma_still_waiting(r, fields, rx, (k - 1) as nat);
        assert(rx.take(k as int).drop_last() =~= rx.take(k - 1));
    } else {
        assert(rx.take(0) =~= Seq::<u8>::empty());
    }
}

/// A peer that sends neither a frame start nor the error marker makes the
/// reader fail with `WaitForByteTimeout` after exactly `BYTE_TIMEOUT` bytes,
/// whatever it is reading for.
pub proof fn lemma_silent_peer_times_out(r: ReplyRules, fields: Seq<Seq<u8>>, rx: Seq<u8>)
    requires
        rx.len() == BYTE_TIMEOUT,
        silent(rx),
    ensures
        reads_exactly(r, reply_start(fields), rx),
        reply_run(r, reply_start(fields), rx).phase == ReplyPhase::Failed(
            Esp32Error::WaitForByteTimeout,
        ),
{
    let s0 = reply_start(fields);
    lemma_still_waiting(r, fields, rx, (BYTE_TIMEOUT - 1) as nat);
    assert(rx.drop_last() =~= rx.take(BYTE_TIMEOUT - 1));
    assert forall|k: int| 0 <= k < rx.len() implies !is_done(
        #[trigger] reply_run(r, s0, rx.take(k)).phase,
    ) by {
        lemma_still_waiting(r, fields, rx, k as nat);
    }
}

} // verus!
