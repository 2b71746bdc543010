//! Blocking full-duplex byte transport over a serial peripheral.
use vstd::prelude::*;

verus! {

/// A serial peripheral that exchanges one byte at a time.
pub trait SpiDevice {
    /// Shifts `byte` out and returns the byte shifted in during the same
    /// transfer, blocking until the transfer is done.
    fn transfer(&mut self, byte: u8) -> u8;
}

/// Clock polarity and phase of the bus.
#[derive(Debug, Clone, Copy, PartialEq, Eq, Structural)]
pub enum Mode {
    Mode0,
    Mode1,
    Mode2,
    Mode3,
}

impl Mode {
    /// Clock polarity: whether the clock idles high.
    pub fn cpol(self) -> (r: bool)
        ensures
            r == (self is Mode2 || self is Mode3),
    {
        match self {
            Mode::Mode0 => false,
            Mode::Mode1 => false,
            Mode::Mode2 => true,
            Mode::Mode3 => true,
        }
    }

    /// Clock phase: whether data is captured on the second clock edge.
    pub fn cpha(self) -> (r: bool)
        ensures
            r == (self is Mode1 || self is Mode3),
    {
        match self {
            Mode::Mode0 => false,
            Mode::Mode1 => true,
            Mode::Mode2 => false,
            Mode::Mode3 => true,
        }
    }
}

/// Clock prescaler for `baudrate` from a system clock of `system_clock_freq`
/// hertz: two when the rate is above a third of the lowest rate reachable
/// with divisor 256, else the largest even value that keeps the divisor
/// range sufficient.
pub open spec fn spi_prescale(baudrate: u32, system_clock_freq: u32) -> nat {
    if 3 * 256 * baudrate > system_clock_freq {
        2
    } else {
        (2 * (system_clock_freq as int / (512 * baudrate))) as nat
    }
}

/// Prescaler and post-divider register values for `baudrate`, and the rate
/// that they give. Register values are the low byte of the computed values.
pub fn clock_divisors(baudrate: u32, system_clock_freq: u32) -> (r: (u8, u8, u32))
    requires
        baudrate > 0,
        512 * baudrate <= u32::MAX,
        spi_prescale(baudrate, system_clock_freq) % 256 != 0,
    ensures
        ({
            let p = spi_prescale(baudrate, system_clock_freq);
            &&& r.0 == p % 256
            &&& r.1 == (system_clock_freq as int / (baudrate * p)) % 256
            &&& r.2 == system_clock_freq as int / (r.0 * (1 + r.1))
        }),
{
    proof {
        lemma_prescale_fits(baudrate as int, system_clock_freq as int);
    }
    let prescale: u32 = if 768u64 * (baudrate as u64) > system_clock_freq as u64 {
        2
    } else {
        2 * (system_clock_freq / (512 * baudrate))
    };
    assert(prescale == spi_prescale(baudrate, system_clock_freq));
    assert(baudrate * prescale >= 1) by (nonlinear_arith)
        requires
            baudrate >= 1,
            prescale >= 1,
    ;
    let postdiv = ((system_clock_freq / (baudrate * prescale)) % 256) as u8;
    let prescale = (prescale % 256) as u8;
    assert(1 <= prescale as u32 * (1 + postdiv as u32) <= 255 * 256) by (nonlinear_arith)
        requires
            1 <= prescale <= 255,
            postdiv <= 255,
    ;
    let actual = system_clock_freq / ((prescale as u32) * (1 + postdiv as u32));
    (prescale, postdiv, actual)
}

proof fn lemma_prescale_fits(baudrate: int, system_clock_freq: int)
    requires
        0 < baudrate,
        512 * baudrate <= u32::MAX,
        0 <= system_clock_freq <= u32::MAX,
    ensures
        3 * 256 * baudrate <= system_clock_freq ==> baudrate * (2 * (system_clock_freq / (512
            * baudrate))) <= u32::MAX,
        0 <= 512 * (system_clock_freq / (512 * baudrate)) <= system_clock_freq,
{
    let d = 512 * baudrate;
    let q = system_clock_freq / d;
    vstd::arithmetic::div_mod::lemma_fundamental_div_mod(system_clock_freq, d);
    vstd::arithmetic::div_mod::lemma_mod_pos_bound(system_clock_freq, d);
    vstd::arithmetic::div_mod::lemma_div_pos_is_pos(system_clock_freq, d);
    assert(d * q >= 512 * q) by (nonlinear_arith)
        requires
            d >= 512,
            q >= 0,
    ;
    if 3 * 256 * baudrate <= system_clock_freq {
        assert(baudrate * (2 * q) * 256 == d * q) by (nonlinear_arith)
            requires
                d == 512 * baudrate,
        ;
    }
}

/// A blocking byte transport. Every transfer shifts one byte out and one
/// byte in; reading shifts out the dummy byte.
///
/// The transport records both directions of every transfer. The record is
/// private to this module and is extended in one place only, `exchange`,
/// together with the device call whose bytes it records.
pub struct Spi<D: SpiDevice> {
    device: D,
    dummy_data: u8,
    sent: Ghost<Seq<u8>>,
    received: Ghost<Seq<u8>>,
}

impl<D: SpiDevice> Spi<D> {
    /// Bytes shifted out so far.
    pub closed spec fn sent(&self) -> Seq<u8> {
        self.sent@
    }

    /// Bytes shifted in so far.
    pub closed spec fn received(&self) -> Seq<u8> {
        self.received@
    }

    /// Byte shifted out while reading.
    pub closed spec fn dummy(&self) -> u8 {
        self.dummy_data
    }

    /// Both directions have seen the same number of bytes.
    pub open spec fn wf(&self) -> bool {
        self.sent().len() == self.received().len()
    }

    /// A transport over `device` that has transferred nothing yet, with
    /// dummy byte zero.
    pub fn new(device: D) -> (r: Self)
        ensures
            r.wf(),
            r.sent() == Seq::<u8>::empty(),
            r.received() == Seq::<u8>::empty(),
            r.dummy() == 0,
    {
        Spi { device, dummy_data: 0, sent: Ghost(Seq::empty()), received: Ghost(Seq::empty()) }
    }

    /// Sets the byte shifted out while reading.
    pub fn set_dummy_data(&mut self, byte: u8)
        ensures
            final(self).dummy() == byte,
            final(self).sent() == old(self).sent(),
            final(self).received() == old(self).received(),
    {
        self.dummy_data = byte;
    }

    /// Sends `byte`, discarding the byte shifted in.
    pub fn write_byte(&mut self, byte: u8)
        requires
            old(self).wf(),
        ensures
            final(self).wf(),
            final(self).dummy() == old(self).dummy(),
            final(self).sent() == old(self).sent().push(byte),
            final(self).received().len() == old(self).received().len() + 1,
            final(self).received().take(old(self).received().len() as int) == old(self).received(),
    {
        self.exchange(byte);
    }

    /// One transfer of `byte` on the device; returns the byte shifted in.
    fn exchange(&mut self, byte: u8) -> (r: u8)
        requires
            old(self).wf(),
        ensures
            final(self).wf(),
            final(self).dummy() == old(self).dummy(),
            final(self).sent() == old(self).sent().push(byte),
            final(self).received() == old(self).received().push(r),
            final(self).received().take(old(self).received().len() as int) == old(self).received(),
    {
        let r = self.device.transfer(byte);
        self.sent = Ghost(self.sent@.push(byte));
        self.received = Ghost(self.received@.push(r));
        assert(self.received().take(old(self).received().len() as int) =~= old(self).received());
        r
    }

    /// Sends `data`, discarding the bytes shifted in.
    pub fn write(&mut self, data: &[u8])
        requires
            old(self).wf(),
        ensures
            final(self).wf(),
            final(self).dummy() == old(self).dummy(),
            final(self).sent() == old(self).sent() + data@,
            final(self).received().len() == old(self).received().len() + data@.len(),
            final(self).received().take(old(self).received().len() as int) == old(self).received(),
    {
        let mut i: usize = 0;
        while i < data.len()
            invariant
                i <= data@.len(),
                self.wf(),
                self.dummy() == old(self).dummy(),
                self.sent() == old(self).sent() + data@.take(i as int),
                self.received().len() == old(self).received().len() + i,
                self.received().take(old(self).received().len() as int) == old(self).received(),
            decreases data@.len() - i,
        {
            self.write_byte(data[i]);
            assert(data@.take(i + 1) =~= data@.take(i as int).push(data@[i as int]));
            assert(self.received().take(old(self).received().len() as int) =~= old(self).received());
            i = i + 1;
        }
        assert(data@.take(i as int) =~= data@);
    }

    /// Reads one byte, shifting out the dummy byte.
    pub fn read_byte(&mut self) -> (r: u8)
        requires
            old(self).wf(),
        ensures
            final(self).wf(),
            final(self).dummy() == old(self).dummy(),
            final(self).sent() == old(self).sent().push(old(self).dummy()),
            final(self).received() == old(self).received().push(r),
    {
        self.exchange(self.dummy_data)
    }

    /// Fills `data` with bytes read from the bus.
    pub fn read_bytes(&mut self, data: &mut [u8])
        requires
            old(self).wf(),
        ensures
            final(self).wf(),
            final(self).dummy() == old(self).dummy(),
            final(data)@.len() == old(data)@.len(),
            final(self).sent() == old(self).sent() + Seq::new(old(data)@.len(), |i: int| old(self).dummy()),
            final(self).received() == old(self).received() + final(data)@,
    {
        let n = data.len();
        let mut i: usize = 0;
        while i < n
            invariant
                n == data@.len(),
                n == old(data)@.len(),
                i <= n,
                self.wf(),
                self.dummy() == old(self).dummy(),
                self.sent() == old(self).sent() + Seq::new(i as nat, |k: int| old(self).dummy()),
                self.received() == old(self).received() + data@.take(i as int),
            decreases n - i,
        {
            let b = self.read_byte();
            data[i] = b;
            assert(data@.take(i + 1) =~= self.received().subrange(old(self).received().len() as int, self.received().len() as int));
            assert(self.received() =~= old(self).received() + data@.take(i + 1));
            assert(self.sent() =~= old(self).sent() + Seq::new((i + 1) as nat, |k: int| old(self).dummy()));
            i = i + 1;
        }
        assert(data@.take(n as int) =~= data@);
    }

    /// Reads and discards `n` bytes.
    pub fn skip_bytes(&mut self, n: usize)
        requires
            old(self).wf(),
        ensures
            final(self).wf(),
            final(self).dummy() == old(self).dummy(),
            final(self).sent() == old(self).sent() + Seq::new(n as nat, |i: int| old(self).dummy()),
            final(self).received().len() == old(self).received().len() + n,
            final(self).received().take(old(self).received().len() as int) == old(self).received(),
    {
        let mut i: usize = 0;
        while i < n
            invariant
                i <= n,
                self.wf(),
                self.dummy() == old(self).dummy(),
                self.sent() == old(self).sent() + Seq::new(i as nat, |k: int| old(self).dummy()),
                self.received().len() == old(self).received().len() + i,
                self.received().take(old(self).received().len() as int) == old(self).received(),
            decreases n - i,
        {
            self.read_byte();
            assert(self.sent() =~= old(self).sent() + Seq::new((i + 1) as nat, |k: int| old(self).dummy()));
            assert(self.received().take(old(self).received().len() as int) =~= old(self).received());
            i = i + 1;
        }
    }
}

} // verus!
