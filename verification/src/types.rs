use vstd::prelude::*;

verus! {

/// An IP address, held as the integer value of its canonical byte form:
/// a version 4 address as 32 bits, a version 6 address as 128 bits.
#[derive(Clone, Copy, PartialEq, Eq, Structural, Debug)]
pub enum IpAddress {
    V4(u32),
    V6(u128),
}

impl IpAddress {
    /// Build a version 4 address from its four dotted-quad octets,
    /// most significant first.
    pub fn v4(a: u8, b: u8, c: u8, d: u8) -> (r: IpAddress)
        ensures
            r == IpAddress::V4(((a as u32) << 24 | (b as u32) << 16 | (c as u32) << 8
                | (d as u32)) as u32),
    {
        IpAddress::V4((a as u32) << 24 | (b as u32) << 16 | (c as u32) << 8 | (d as u32))
    }
}

/// A phone number, kept as the caller wrote it.
#[derive(Clone, Debug, PartialEq, Eq)]
pub struct PhoneNumber {
    pub(crate) number: String,
}

impl View for PhoneNumber {
    type V = Seq<char>;

    open(crate) spec fn view(&self) -> Seq<char> {
        self.number@
    }
}

impl PhoneNumber {
    pub fn from(number: &str) -> (r: PhoneNumber)
        ensures
            r@ == number@,
    {
        PhoneNumber { number: number.to_owned() }
    }

    pub fn as_str(&self) -> (r: &str)
        ensures
            r@ == self@,
    {
        self.number.as_str()
    }
}

/// An email address, kept as the caller wrote it.
#[derive(Clone, Debug, PartialEq, Eq)]
pub struct EmailAddress {
    pub(crate) email: String,
}

impl View for EmailAddress {
    type V = Seq<char>;

    open(crate) spec fn view(&self) -> Seq<char> {
        self.email@
    }
}

impl EmailAddress {
    pub fn from(email: &str) -> (r: EmailAddress)
        ensures
            r@ == email@,
    {
        EmailAddress { email: email.to_owned() }
    }

    pub fn as_str(&self) -> (r: &str)
        ensures
            r@ == self@,
    {
        self.email.as_str()
    }
}

/// A domain name, kept as the caller wrote it.
#[derive(Clone, Debug, PartialEq, Eq)]
pub struct Domain {
    pub(crate) domain: String,
}

impl View for Domain {
    type V = Seq<char>;

    open(crate) spec fn view(&self) -> Seq<char> {
        self.domain@
    }
}

impl Domain {
    pub fn from(domain: &str) -> (r: Domain)
        ensures
            r@ == domain@,
    {
        Domain { domain: domain.to_owned() }
    }

    pub fn as_str(&self) -> (r: &str)
        ensures
            r@ == self@,
    {
        self.domain.as_str()
    }
}

/// A single DNS record, one variant per record type. A version 4 address
/// is held as 32 bits, a version 6 address as 128 bits, as in `IpAddress`.
#[derive(Clone, Debug, PartialEq, Eq)]
pub enum DNSRecord {
    A(u32),
    AAAA(u128),
    CNAME { from: String, to: Domain },
    MX(Domain),
    SRV { service: String, protocol: String, from: String, to: String, to_port: u16 },
    TXT(String),
}

/// The mathematical value of a `DNSRecord`: every text field a sequence
/// of characters.
#[verifier::ext_equal]
pub enum DNSRecordV {
    A { addr: u32 },
    AAAA { addr: u128 },
    CNAME { from: Seq<char>, to: Seq<char> },
    MX { domain: Seq<char> },
    SRV { service: Seq<char>, protocol: Seq<char>, from: Seq<char>, to: Seq<char>, to_port: u16 },
    TXT { text: Seq<char> },
}

impl View for DNSRecord {
    type V = DNSRecordV;

    open spec fn view(&self) -> DNSRecordV {
        match self {
            DNSRecord::A(addr) => DNSRecordV::A { addr: *addr },
            DNSRecord::AAAA(addr) => DNSRecordV::AAAA { addr: *addr },
            DNSRecord::CNAME { from, to } => DNSRecordV::CNAME { from: from@, to: to@ },
            DNSRecord::MX(domain) => DNSRecordV::MX { domain: domain@ },
            DNSRecord::SRV { service, protocol, from, to, to_port } => DNSRecordV::SRV {
                service: service@,
                protocol: protocol@,
                from: from@,
                to: to@,
                to_port: *to_port,
            },
            DNSRecord::TXT(text) => DNSRecordV::TXT { text: text@ },
        }
    }
}

} // verus!
