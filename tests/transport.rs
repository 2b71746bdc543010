use pico_wireless::spi::{clock_divisors, Mode, Spi, SpiDevice};
use pico_wireless::types::{ConnectionStatus, EncryptionType, IpV4, ProtocolMode};

/// Answers each byte with the previous one it received.
struct Echo {
    last: u8,
    seen: Vec<u8>,
}

impl SpiDevice for Echo {
    fn transfer(&mut self, byte: u8) -> u8 {
        self.seen.push(byte);
        std::mem::replace(&mut self.last, byte)
    }
}

#[test]
fn reads_shift_out_the_dummy_byte() {
    let mut spi = Spi::new(Echo { last: 0x11, seen: vec![] });
    assert_eq!(spi.read_byte(), 0x11);
    spi.set_dummy_data(0xFF);
    assert_eq!(spi.read_byte(), 0x00);
    assert_eq!(spi.read_byte(), 0xFF);
}

#[test]
fn write_then_read_bytes_and_skip() {
    let mut spi = Spi::new(Echo { last: 0, seen: vec![] });
    spi.set_dummy_data(0xAB);
    spi.write(&[1, 2, 3]);
    spi.write_byte(4);
    let mut data = [0u8; 3];
    spi.read_bytes(&mut data);
    assert_eq!(data, [4, 0xAB, 0xAB]);
    spi.skip_bytes(2);
    assert_eq!(spi.read_byte(), 0xAB);
}

#[test]
fn modes_give_polarity_and_phase() {
    assert_eq!((Mode::Mode0.cpol(), Mode::Mode0.cpha()), (false, false));
    assert_eq!((Mode::Mode1.cpol(), Mode::Mode1.cpha()), (false, true));
    assert_eq!((Mode::Mode2.cpol(), Mode::Mode2.cpha()), (true, false));
    assert_eq!((Mode::Mode3.cpol(), Mode::Mode3.cpha()), (true, true));
}

#[test]
fn conn_status_domain_is_closed() {
    for b in 0..=255u8 {
        let known = b <= 9 || b == 255;
        assert_eq!(ConnectionStatus::from_byte(b).is_ok(), known, "byte {}", b);
    }
    assert_eq!(ConnectionStatus::from_byte(0), Ok(ConnectionStatus::Idle));
    assert_eq!(ConnectionStatus::from_byte(9), Ok(ConnectionStatus::ApFailed));
}

#[test]
fn encryption_domain_is_closed() {
    for b in 0..=255u8 {
        let known = [2, 4, 5, 7, 8, 255].contains(&b);
        assert_eq!(EncryptionType::from_byte(b).is_ok(), known, "byte {}", b);
    }
    assert_eq!(EncryptionType::from_byte(7), Ok(EncryptionType::Open));
    assert_eq!(EncryptionType::from_byte(255), Ok(EncryptionType::Unknown));
}

#[test]
fn protocol_mode_bytes() {
    assert_eq!(ProtocolMode::Tcp.as_byte(), 0);
    assert_eq!(ProtocolMode::TlsBearSsl.as_byte(), 4);
}

#[test]
fn ip_from_slice_and_text() {
    let ip = IpV4::from_slice(&[127, 0, 0, 1]);
    assert_eq!(ip.as_bytes(), &[127, 0, 0, 1]);
    assert_eq!(ip.to_string(), "127.0.0.1");
}

#[test]
fn clock_divisors_for_fast_rate() {
    assert_eq!(clock_divisors(8_000_000, 125_000_000), (2, 7, 7_812_500));
}

#[test]
fn clock_divisors_for_slow_rate() {
    assert_eq!(clock_divisors(100_000, 125_000_000), (4, 56, 548_245));
}
