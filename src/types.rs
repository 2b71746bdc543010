//! Values exchanged with the co-processor.
use vstd::prelude::*;
use crate::protocol::Esp32Error;

verus! {

/// Encryption of a scanned network.
#[derive(Debug, Clone, Copy, PartialEq, Eq, Structural)]
pub enum EncryptionType {
    Tkip,
    Ccmp,
    Wep,
    Open,
    Auto,
    Unknown,
}

/// The encryption type that wire byte `b` stands for.
pub open spec fn encryption_from(b: u8) -> Result<EncryptionType, Esp32Error> {
    if b == 2 {
        Ok(EncryptionType::Tkip)
    } else if b == 4 {
        Ok(EncryptionType::Ccmp)
    } else if b == 5 {
        Ok(EncryptionType::Wep)
    } else if b == 7 {
        Ok(EncryptionType::Open)
    } else if b == 8 {
        Ok(EncryptionType::Auto)
    } else if b == 255 {
        Ok(EncryptionType::Unknown)
    } else {
        Err(Esp32Error::UnexpectedEncryptionType(b))
    }
}

impl EncryptionType {
    /// Decodes a wire byte; any byte outside the closed set is an error.
    pub fn from_byte(b: u8) -> (r: Result<EncryptionType, Esp32Error>)
        ensures
            r == encryption_from(b),
    {
        match b {
            2 => Ok(EncryptionType::Tkip),
            4 => Ok(EncryptionType::Ccmp),
            5 => Ok(EncryptionType::Wep),
            7 => Ok(EncryptionType::Open),
            8 => Ok(EncryptionType::Auto),
            255 => Ok(EncryptionType::Unknown),
            _ => Err(Esp32Error::UnexpectedEncryptionType(b)),
        }
    }
}

/// Connection state reported by the co-processor.
#[derive(Debug, Clone, Copy, PartialEq, Eq, Structural)]
pub enum ConnectionStatus {
    Idle,
    NoSsidAvail,
    ScanCompleted,
    Connected,
    ConnectFailed,
    ConnectionLost,
    Disconnected,
    ApListening,
    ApConnected,
    ApFailed,
    NoShield,
}

/// The connection status that wire byte `b` stands for.
pub open spec fn conn_status_from(b: u8) -> Result<ConnectionStatus, Esp32Error> {
    if b == 0 {
        Ok(ConnectionStatus::Idle)
    } else if b == 1 {
        Ok(ConnectionStatus::NoSsidAvail)
    } else if b == 2 {
        Ok(ConnectionStatus::ScanCompleted)
    } else if b == 3 {
        Ok(ConnectionStatus::Connected)
    } else if b == 4 {
        Ok(ConnectionStatus::ConnectFailed)
    } else if b == 5 {
        Ok(ConnectionStatus::ConnectionLost)
    } else if b == 6 {
        Ok(ConnectionStatus::Disconnected)
    } else if b == 7 {
        Ok(ConnectionStatus::ApListening)
    } else if b == 8 {
        Ok(ConnectionStatus::ApConnected)
    } else if b == 9 {
        Ok(ConnectionStatus::ApFailed)
    } else if b == 255 {
        Ok(ConnectionStatus::NoShield)
    } else {
        Err(Esp32Error::UnexpectedStatus(b))
    }
}

impl ConnectionStatus {
    /// Decodes a wire byte; any byte outside the closed set is an error.
    pub fn from_byte(b: u8) -> (r: Result<ConnectionStatus, Esp32Error>)
        ensures
            r == conn_status_from(b),
    {
        match b {
            0 => Ok(ConnectionStatus::Idle),
            1 => Ok(ConnectionStatus::NoSsidAvail),
            2 => Ok(ConnectionStatus::ScanCompleted),
            3 => Ok(ConnectionStatus::Connected),
            4 => Ok(ConnectionStatus::ConnectFailed),
            5 => Ok(ConnectionStatus::ConnectionLost),
            6 => Ok(ConnectionStatus::Disconnected),
            7 => Ok(ConnectionStatus::ApListening),
            8 => Ok(ConnectionStatus::ApConnected),
            9 => Ok(ConnectionStatus::ApFailed),
            255 => Ok(ConnectionStatus::NoShield),
            _ => Err(Esp32Error::UnexpectedStatus(b)),
        }
    }
}

/// A byte outside {0, ..., 9, 255} is not a connection status.
pub proof fn lemma_conn_status_domain(b: u8)
    ensures
        conn_status_from(b) is Err <==> !(b <= 9 || b == 255),
{
}

/// A byte outside {2, 4, 5, 7, 8, 255} is not an encryption type.
pub proof fn lemma_encryption_domain(b: u8)
    ensures
        encryption_from(b) is Err <==> !(b == 2 || b == 4 || b == 5 || b == 7 || b == 8 || b == 255),
{
}

/// Transport protocol of a client connection.
#[derive(Debug, Clone, Copy, PartialEq, Eq, Structural)]
pub enum ProtocolMode {
    Tcp,
    Udp,
    Tls,
    UdpMulticast,
    TlsBearSsl,
}

/// The wire byte of a protocol mode.
pub open spec fn mode_byte(m: ProtocolMode) -> u8 {
    match m {
        ProtocolMode::Tcp => 0,
        ProtocolMode::Udp => 1,
        ProtocolMode::Tls => 2,
        ProtocolMode::UdpMulticast => 3,
        ProtocolMode::TlsBearSsl => 4,
    }
}

impl ProtocolMode {
    /// The wire byte of this mode.
    pub fn as_byte(self) -> (r: u8)
        ensures
            r == mode_byte(self),
    {
        match self {
            ProtocolMode::Tcp => 0,
            ProtocolMode::Udp => 1,
            ProtocolMode::Tls => 2,
            ProtocolMode::UdpMulticast => 3,
            ProtocolMode::TlsBearSsl => 4,
        }
    }
}

/// An IPv4 address, most significant byte first.
#[derive(Debug, Clone, Copy, PartialEq, Eq)]
pub struct IpV4(pub [u8; 4]);

impl IpV4 {
    /// The address whose four bytes are `data`.
    pub fn from_slice(data: &[u8]) -> (r: IpV4)
        requires
            data@.len() == 4,
        ensures
            r.0@ == data@,
    {
        let r = IpV4([data[0], data[1], data[2], data[3]]);
        assert(r.0@ =~= data@);
        r
    }

    /// The four bytes of the address.
    pub fn as_bytes(&self) -> (r: &[u8])
        ensures
            r@ == self.0@,
    {
        self.0.as_slice()
    }

    /// The address in dotted form, `a.b.c.d`.
    pub fn to_string(&self) -> (r: String)
        ensures
            r@ == dotted(self.0@),
    {
        proof {
            reveal_strlit(".");
        }
        let mut r = String::new();
        push_decimal(&mut r, self.0[0]);
        r.append(".");
        push_decimal(&mut r, self.0[1]);
        r.append(".");
        push_decimal(&mut r, self.0[2]);
        r.append(".");
        push_decimal(&mut r, self.0[3]);
        assert(r@ =~= dotted(self.0@));
        r
    }
}

/// The character of decimal digit `d`.
pub open spec fn digit_char(d: int) -> char {
    seq!['0', '1', '2', '3', '4', '5', '6', '7', '8', '9'][d]
}

/// Decimal digits of `n`, without leading zeros.
pub open spec fn decimal(n: u8) -> Seq<char> {
    let n = n as int;
    if n < 10 {
        seq![digit_char(n)]
    } else if n < 100 {
        seq![digit_char(n / 10), digit_char(n % 10)]
    } else {
        seq![digit_char(n / 100), digit_char((n / 10) % 10), digit_char(n % 10)]
    }
}

/// Four bytes in decimal, joined by dots.
pub open spec fn dotted(b: Seq<u8>) -> Seq<char> {
    decimal(b[0]) + seq!['.'] + decimal(b[1]) + seq!['.'] + decimal(b[2]) + seq!['.'] + decimal(b[3])
}

/// The text of decimal digit `d`.
fn digit_str(d: u8) -> (r: &'static str)
    requires
        d < 10,
    ensures
        r@ == seq![digit_char(d as int)],
{
    proof {
        reveal_strlit("0");
        reveal_strlit("1");
        reveal_strlit("2");
        reveal_strlit("3");
        reveal_strlit("4");
        reveal_strlit("5");
        reveal_strlit("6");
        reveal_strlit("7");
        reveal_strlit("8");
        reveal_strlit("9");
    }
    match d {
        0 => "0",
        1 => "1",
        2 => "2",
        3 => "3",
        4 => "4",
        5 => "5",
        6 => "6",
        7 => "7",
        8 => "8",
        _ => "9",
    }
}

/// Appends `n` in decimal to `s`.
fn push_decimal(s: &mut String, n: u8)
    ensures
        final(s)@ == old(s)@ + decimal(n),
{
    if n >= 100 {
        s.append(digit_str(n / 100));
    }
    if n >= 10 {
        s.append(digit_str((n / 10) % 10));
    }
    s.append(digit_str(n % 10));
    assert(s@ =~= old(s)@ + decimal(n));
}

/// Handle of a socket on the co-processor.
#[derive(Debug, Clone, Copy, PartialEq, Eq, Structural)]
pub struct Socket(pub u8);

} // verus!
