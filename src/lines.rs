//! The control lines between the host and the co-processor, and a record of
//! what was done on them.
use vstd::prelude::*;

verus! {

/// What was done on the control lines.
#[derive(Debug, Clone, Copy, PartialEq, Eq, Structural)]
pub enum LineEvent {
    /// Waited until the ready line showed that the co-processor is not busy.
    WaitReady,
    /// Waited until the co-processor acknowledged that it is selected.
    WaitAck,
    /// Drove chip-select (`true`: selected).
    Select(bool),
    /// Drove the reset line (`true`: held in reset).
    Reset(bool),
    /// Drove the auxiliary line.
    Aux(bool),
    /// Waited for a number of milliseconds.
    Delay(u32),
}

/// The control lines between the host and the co-processor.
pub trait ControlLines {
    /// Blocks until the ready line shows that the co-processor is not busy.
    fn wait_ready(&mut self);

    /// Blocks until the co-processor acknowledges that it is selected.
    fn wait_ack(&mut self);

    /// Drives chip-select; `true` selects the co-processor.
    fn set_select(&mut self, selected: bool);

    /// Drives the reset line; `true` holds the co-processor in reset.
    fn set_reset(&mut self, asserted: bool);

    /// Drives the auxiliary output line.
    fn set_aux(&mut self, high: bool);

    /// Blocks for `ms` milliseconds.
    fn delay_ms(&mut self, ms: u32);
}

/// Control lines with a record of what was done on them. The record is
/// private to this module; each method extends it together with the one
/// call on the lines that it records.
pub struct Lines<L: ControlLines> {
    lines: L,
    events: Ghost<Seq<LineEvent>>,
}

impl<L: ControlLines> Lines<L> {
    /// Everything done on the lines through this value, oldest first.
    pub closed spec fn events(&self) -> Seq<LineEvent> {
        self.events@
    }

    /// Takes over `lines`, with nothing done yet.
    pub fn new(lines: L) -> (r: Self)
        ensures
            r.events() == Seq::<LineEvent>::empty(),
    {
        Lines { lines, events: Ghost(Seq::empty()) }
    }

    /// Waits for ready, and records it.
    pub fn wait_ready(&mut self)
        ensures
            final(self).events() == old(self).events().push(LineEvent::WaitReady),
    {
        self.lines.wait_ready();
        self.events = Ghost(self.events@.push(LineEvent::WaitReady));
    }

    /// Waits for the acknowledgement, and records it.
    pub fn wait_ack(&mut self)
        ensures
            final(self).events() == old(self).events().push(LineEvent::WaitAck),
    {
        self.lines.wait_ack();
        self.events = Ghost(self.events@.push(LineEvent::WaitAck));
    }

    /// Drives chip-select, and records it.
    pub fn set_select(&mut self, selected: bool)
        ensures
            final(self).events() == old(self).events().push(LineEvent::Select(selected)),
    {
        self.lines.set_select(selected);
        self.events = Ghost(self.events@.push(LineEvent::Select(selected)));
    }

    /// Drives the reset line, and records it.
    pub fn set_reset(&mut self, asserted: bool)
        ensures
            final(self).events() == old(self).events().push(LineEvent::Reset(asserted)),
    {
        self.lines.set_reset(asserted);
        self.events = Ghost(self.events@.push(LineEvent::Reset(asserted)));
    }

    /// Drives the auxiliary line, and records it.
    pub fn set_aux(&mut self, high: bool)
        ensures
            final(self).events() == old(self).events().push(LineEvent::Aux(high)),
    {
        self.lines.set_aux(high);
        self.events = Ghost(self.events@.push(LineEvent::Aux(high)));
    }

    /// Waits `ms` milliseconds, and records it.
    pub fn delay_ms(&mut self, ms: u32)
        ensures
            final(self).events() == old(self).events().push(LineEvent::Delay(ms)),
    {
        self.lines.delay_ms(ms);
        self.events = Ghost(self.events@.push(LineEvent::Delay(ms)));
    }
}

} // verus!
