//! SOCKS5 (RFC 1928) wire format: addresses, requests, replies, the
//! method negotiation and UDP relay datagrams.

use vstd::prelude::*;
use vstd::utf8::{valid_utf8, decode_utf8, encode_utf8, encode_utf8_valid_utf8, encode_utf8_decode_utf8};
use crate::dns_message::text_to_string;
use crate::util::{be16, u16_bytes, read_be16, push_be16, push_all, copy_range, lemma_be16_roundtrip};

verus! {

pub const SOCKS_VERSION: u8 = 0x05;
pub const ATYP_IPV4: u8 = 0x01;
pub const ATYP_DOMAIN: u8 = 0x03;
pub const ATYP_IPV6: u8 = 0x04;
pub const METHOD_NO_AUTH: u8 = 0x00;
pub const METHOD_NONE_ACCEPTABLE: u8 = 0xFF;

/// The kind of an I/O failure found while reading protocol data.
#[derive(Debug, Clone, Copy, PartialEq, Eq, Structural)]
pub enum IoFailure {
    /// The data ended before the field it announced.
    UnexpectedEof,
    /// A field does not hold what it must (a domain that is not UTF-8).
    InvalidData,
    /// An address of the wrong family.
    AddrNotAvailable,
}

#[derive(Debug)]
pub enum ProxyError {
    Io(IoFailure),
    SocksInvalidVersion(u8),
    SocksMethodNotSupported,
    SocksInvalidCommand(u8),
    SocksInvalidAddressType(u8),
    DnsResolutionFailed(String),
}

#[derive(Debug, Clone)]
pub enum Address {
    Ipv4([u8; 4], u16),
    Ipv6([u8; 16], u16),
    Domain(String, u16),
}

pub enum AddressView {
    Ipv4(Seq<u8>, u16),
    Ipv6(Seq<u8>, u16),
    Domain(Seq<char>, u16),
}

impl View for Address {
    type V = AddressView;

    open spec fn view(&self) -> AddressView {
        match self {
            Address::Ipv4(ip, port) => AddressView::Ipv4(ip@, *port),
            Address::Ipv6(ip, port) => AddressView::Ipv6(ip@, *port),
            Address::Domain(d, port) => AddressView::Domain(d@, *port),
        }
    }
}

/// Wire form of an address: ATYP, the address (a domain with its length
/// byte, taken modulo 256) and the port.
pub open spec fn address_wire(a: AddressView) -> Seq<u8> {
    match a {
        AddressView::Ipv4(ip, port) => seq![ATYP_IPV4] + ip + u16_bytes(port),
        AddressView::Domain(d, port) => seq![ATYP_DOMAIN, (encode_utf8(d).len() % 256) as u8] + encode_utf8(d)
            + u16_bytes(port),
        AddressView::Ipv6(ip, port) => seq![ATYP_IPV6] + ip + u16_bytes(port),
    }
}

/// The address at the start of `data` and the number of bytes it takes.
pub open spec fn address_at(data: Seq<u8>) -> Result<(AddressView, int), ProxyError> {
    if data.len() == 0 {
        Err(ProxyError::SocksInvalidAddressType(0xFF))
    } else if data[0] == ATYP_IPV4 {
        if data.len() < 7 {
            Err(ProxyError::Io(IoFailure::UnexpectedEof))
        } else {
            Ok((AddressView::Ipv4(data.subrange(1, 5), be16(data[5], data[6])), 7))
        }
    } else if data[0] == ATYP_DOMAIN {
        if data.len() < 2 {
            Err(ProxyError::Io(IoFailure::UnexpectedEof))
        } else {
            let n = data[1] as int;
            if data.len() < n + 4 {
                Err(ProxyError::Io(IoFailure::UnexpectedEof))
            } else if !valid_utf8(data.subrange(2, 2 + n)) {
                Err(ProxyError::Io(IoFailure::InvalidData))
            } else {
                Ok((AddressView::Domain(decode_utf8(data.subrange(2, 2 + n)), be16(data[2 + n], data[3 + n])), n + 4))
            }
        }
    } else if data[0] == ATYP_IPV6 {
        if data.len() < 19 {
            Err(ProxyError::Io(IoFailure::UnexpectedEof))
        } else {
            Ok((AddressView::Ipv6(data.subrange(1, 17), be16(data[17], data[18])), 19))
        }
    } else {
        Err(ProxyError::SocksInvalidAddressType(data[0]))
    }
}

pub open spec fn address_result(r: Result<(Address, usize), ProxyError>) -> Result<(AddressView, int), ProxyError> {
    match r {
        Ok((a, n)) => Ok((a@, n as int)),
        Err(e) => Err(e),
    }
}

/// An address that its own wire form gives back: addresses of their
/// lengths and a domain of at most 255 bytes.
pub open spec fn address_fits(a: AddressView) -> bool {
    match a {
        AddressView::Ipv4(ip, _) => ip.len() == 4,
        AddressView::Ipv6(ip, _) => ip.len() == 16,
        AddressView::Domain(d, _) => encode_utf8(d).len() <= 255,
    }
}

impl Address {
    /// Reads an address (ATYP, address, port) from the start of `data`,
    /// giving the number of bytes it took.
    pub fn from_socks5(data: &[u8]) -> (r: Result<(Self, usize), ProxyError>)
        ensures
            address_result(r) == address_at(data@),
    {
        if data.len() == 0 {
            return Err(ProxyError::SocksInvalidAddressType(0xFF));
        }
        let atyp = data[0];
        if atyp == ATYP_IPV4 {
            if data.len() < 7 {
                return Err(ProxyError::Io(IoFailure::UnexpectedEof));
            }
            let ip = [data[1], data[2], data[3], data[4]];
            assert(ip@ =~= data@.subrange(1, 5));
            let port = read_be16(data[5], data[6]);
            Ok((Address::Ipv4(ip, port), 7))
        } else if atyp == ATYP_DOMAIN {
            if data.len() < 2 {
                return Err(ProxyError::Io(IoFailure::UnexpectedEof));
            }
            let n = data[1] as usize;
            let end = n + 4;
            if data.len() < end {
                return Err(ProxyError::Io(IoFailure::UnexpectedEof));
            }
            let bytes = copy_range(data, 2, 2 + n);
            match text_to_string(bytes) {
                Some(domain) => {
                    let port = read_be16(data[2 + n], data[3 + n]);
                    Ok((Address::Domain(domain, port), end))
                }
                None => Err(ProxyError::Io(IoFailure::InvalidData)),
            }
        } else if atyp == ATYP_IPV6 {
            if data.len() < 19 {
                return Err(ProxyError::Io(IoFailure::UnexpectedEof));
            }
            let ip = [
                data[1], data[2], data[3], data[4], data[5], data[6], data[7], data[8],
                data[9], data[10], data[11], data[12], data[13], data[14], data[15], data[16],
            ];
            assert(ip@ =~= data@.subrange(1, 17));
            let port = read_be16(data[17], data[18]);
            Ok((Address::Ipv6(ip, port), 19))
        } else {
            Err(ProxyError::SocksInvalidAddressType(atyp))
        }
    }

    /// The address in wire form.
    pub fn to_socks5_bytes(&self) -> (r: Vec<u8>)
        ensures
            r@ == address_wire(self@),
    {
        match self {
            Address::Ipv4(ip, port) => {
                let mut v: Vec<u8> = Vec::with_capacity(7);
                v.push(ATYP_IPV4);
                push_all(&mut v, ip);
                push_be16(&mut v, *port);
                v
            }
            Address::Domain(domain, port) => {
                let b = domain.as_str().as_bytes();
                let mut v: Vec<u8> = Vec::new();
                v.push(ATYP_DOMAIN);
                v.push((b.len() % 256) as u8);
                push_all(&mut v, b);
                push_be16(&mut v, *port);
                v
            }
            Address::Ipv6(ip, port) => {
                let mut v: Vec<u8> = Vec::with_capacity(19);
                v.push(ATYP_IPV6);
                push_all(&mut v, ip);
                push_be16(&mut v, *port);
                v
            }
        }
    }
}

/// Reading the wire form of an address gives the address back, with the
/// whole wire form consumed.
pub proof fn lemma_address_roundtrip(a: AddressView)
    requires
        address_fits(a),
    ensures
        address_at(address_wire(a)) == Ok::<(AddressView, int), ProxyError>((a, address_wire(a).len() as int)),
{
    let w = address_wire(a);
    match a {
        AddressView::Ipv4(ip, port) => {
            assert(w.subrange(1, 5) =~= ip);
            lemma_be16_roundtrip(port);
        }
        AddressView::Ipv6(ip, port) => {
            assert(w.subrange(1, 17) =~= ip);
            lemma_be16_roundtrip(port);
        }
        AddressView::Domain(d, port) => {
            let b = encode_utf8(d);
            let n = b.len() as int;
            assert(w.subrange(2, 2 + n) =~= b);
            encode_utf8_valid_utf8(d);
            encode_utf8_decode_utf8(d);
            lemma_be16_roundtrip(port);
            assert(w[2 + n] == u16_bytes(port)[0]);
            assert(w[3 + n] == u16_bytes(port)[1]);
        }
    }
}

#[derive(Debug, Clone, Copy, PartialEq, Eq, Structural)]
pub enum Command {
    TcpConnect,
    UdpAssociate,
}

pub open spec fn command_of(v: u8) -> Option<Command> {
    if v == 0x01 {
        Some(Command::TcpConnect)
    } else if v == 0x03 {
        Some(Command::UdpAssociate)
    } else {
        None
    }
}

impl Command {
    pub fn from_u8(v: u8) -> (r: Option<Self>)
        ensures
            r == command_of(v),
    {
        if v == 0x01 {
            Some(Command::TcpConnect)
        } else if v == 0x03 {
            Some(Command::UdpAssociate)
        } else {
            None
        }
    }
}

#[derive(Debug, Clone, Copy, PartialEq, Eq, Structural)]
pub enum ReplyCode {
    Success,
    HostUnreachable,
    ConnectionRefused,
}

pub open spec fn reply_code_byte(c: ReplyCode) -> u8 {
    match c {
        ReplyCode::Success => 0x00,
        ReplyCode::HostUnreachable => 0x04,
        ReplyCode::ConnectionRefused => 0x05,
    }
}

impl ReplyCode {
    /// The REP byte of the code.
    pub fn code(&self) -> (r: u8)
        ensures
            r == reply_code_byte(*self),
    {
        match self {
            ReplyCode::Success => 0x00,
            ReplyCode::HostUnreachable => 0x04,
            ReplyCode::ConnectionRefused => 0x05,
        }
    }
}

/// A client may speak to us only in SOCKS version 5.
pub fn check_version(ver: u8) -> (r: Result<(), ProxyError>)
    ensures
        ver == SOCKS_VERSION ==> r is Ok,
        ver != SOCKS_VERSION ==> (r matches Err(ProxyError::SocksInvalidVersion(v)) && v == ver),
{
    if ver != SOCKS_VERSION {
        return Err(ProxyError::SocksInvalidVersion(ver));
    }
    Ok(())
}

/// The answer to the client's offered methods: "no authentication" when
/// offered, "none acceptable" otherwise; the error tells the caller to stop.
pub fn choose_method(methods: &[u8]) -> (r: ([u8; 2], Result<(), ProxyError>))
    ensures
        methods@.contains(METHOD_NO_AUTH) ==> r.0@ == seq![SOCKS_VERSION, METHOD_NO_AUTH] && r.1 is Ok,
        !methods@.contains(METHOD_NO_AUTH) ==> r.0@ == seq![SOCKS_VERSION, METHOD_NONE_ACCEPTABLE]
            && r.1 matches Err(ProxyError::SocksMethodNotSupported),
{
    let mut i: usize = 0;
    while i < methods.len()
        invariant
            i <= methods@.len(),
            forall|q: int| 0 <= q < i ==> methods@[q] != METHOD_NO_AUTH,
        decreases methods@.len() - i,
    {
        if methods[i] == METHOD_NO_AUTH {
            let r = [SOCKS_VERSION, METHOD_NO_AUTH];
            assert(r@ =~= seq![SOCKS_VERSION, METHOD_NO_AUTH]);
            return (r, Ok(()));
        }
        i = i + 1;
    }
    let r = [SOCKS_VERSION, METHOD_NONE_ACCEPTABLE];
    assert(r@ =~= seq![SOCKS_VERSION, METHOD_NONE_ACCEPTABLE]);
    assert(!methods@.contains(METHOD_NO_AUTH));
    (r, Err(ProxyError::SocksMethodNotSupported))
}

/// The command and address type of a request header (VER, CMD, RSV, ATYP).
pub fn parse_request_header(header: [u8; 4]) -> (r: Result<(Command, u8), ProxyError>)
    ensures
        header[0] != SOCKS_VERSION ==> (r matches Err(ProxyError::SocksInvalidVersion(v)) && v == header[0]),
        header[0] == SOCKS_VERSION && command_of(header[1]) is None ==> (r matches Err(
            ProxyError::SocksInvalidCommand(c),
        ) && c == header[1]),
        header[0] == SOCKS_VERSION && command_of(header[1]) is Some ==> (r matches Ok((c, a))
            && command_of(header[1]) == Some(c) && a == header[3]),
{
    if header[0] != SOCKS_VERSION {
        return Err(ProxyError::SocksInvalidVersion(header[0]));
    }
    match Command::from_u8(header[1]) {
        Some(cmd) => Ok((cmd, header[3])),
        None => Err(ProxyError::SocksInvalidCommand(header[1])),
    }
}

/// How many bytes follow the ATYP byte of a request's address: the
/// address and the port, and for a domain its length byte too.
pub fn address_extra(atyp: u8, domain_len: u8) -> (r: Result<usize, ProxyError>)
    ensures
        atyp == ATYP_IPV4 ==> r == Ok::<usize, ProxyError>(6),
        atyp == ATYP_DOMAIN ==> (r matches Ok(n) && n == domain_len + 3),
        atyp == ATYP_IPV6 ==> r == Ok::<usize, ProxyError>(18),
        atyp != ATYP_IPV4 && atyp != ATYP_DOMAIN && atyp != ATYP_IPV6 ==> (r matches Err(
            ProxyError::SocksInvalidAddressType(a),
        ) && a == atyp),
{
    if atyp == ATYP_IPV4 {
        Ok(6)
    } else if atyp == ATYP_DOMAIN {
        Ok(domain_len as usize + 3)
    } else if atyp == ATYP_IPV6 {
        Ok(18)
    } else {
        Err(ProxyError::SocksInvalidAddressType(atyp))
    }
}

/// A reply: VER, REP, RSV and the bound address.
pub fn reply_bytes(code: ReplyCode, bind_addr: &Address) -> (r: Vec<u8>)
    ensures
        r@ == seq![SOCKS_VERSION, reply_code_byte(code), 0u8] + address_wire(bind_addr@),
{
    let a = bind_addr.to_socks5_bytes();
    let mut reply: Vec<u8> = Vec::new();
    reply.push(SOCKS_VERSION);
    reply.push(code.code());
    reply.push(0x00);
    push_all(&mut reply, a.as_slice());
    reply
}

/// How a CONNECT request ended: the name did not resolve, the target
/// refused the connection, or the connection was made.
#[derive(Debug, Clone, Copy, PartialEq, Eq, Structural)]
pub enum ConnectOutcome {
    ResolveFailed,
    ConnectFailed,
    Connected,
}

/// The reply a CONNECT outcome gets: a failed name lookup is "host
/// unreachable", a refused connection is "connection refused", a made
/// connection is success.
pub open spec fn reply_for(o: ConnectOutcome) -> ReplyCode {
    match o {
        ConnectOutcome::ResolveFailed => ReplyCode::HostUnreachable,
        ConnectOutcome::ConnectFailed => ReplyCode::ConnectionRefused,
        ConnectOutcome::Connected => ReplyCode::Success,
    }
}

/// The reply bytes sent to a CONNECT client for its outcome, with the
/// unspecified bind address 0.0.0.0:0.
pub fn connect_reply(o: ConnectOutcome) -> (r: Vec<u8>)
    ensures
        r@ == seq![SOCKS_VERSION, reply_code_byte(reply_for(o)), 0u8] + address_wire(
            AddressView::Ipv4(seq![0u8, 0u8, 0u8, 0u8], 0),
        ),
{
    let code = match o {
        ConnectOutcome::ResolveFailed => ReplyCode::HostUnreachable,
        ConnectOutcome::ConnectFailed => ReplyCode::ConnectionRefused,
        ConnectOutcome::Connected => ReplyCode::Success,
    };
    let zero = Address::Ipv4([0u8, 0u8, 0u8, 0u8], 0);
    assert(zero@ == AddressView::Ipv4(seq![0u8, 0u8, 0u8, 0u8], 0));
    reply_bytes(code, &zero)
}

/// The indices among the first `n` candidates whose IPv4-ness is `want`,
/// in order.
pub open spec fn picks(is_v4: Seq<bool>, want: bool, n: nat) -> Seq<usize>
    decreases n,
{
    if n == 0 {
        seq![]
    } else {
        let p = picks(is_v4, want, (n - 1) as nat);
        if is_v4[n - 1] == want { p.push((n - 1) as usize) } else { p }
    }
}

/// The order in which a CONNECT tries the resolved addresses: the IPv4
/// ones first, then the others, each group in the order resolved.
pub open spec fn v4_first(is_v4: Seq<bool>) -> Seq<usize> {
    picks(is_v4, true, is_v4.len()) + picks(is_v4, false, is_v4.len())
}

fn collect_picks(is_v4: &[bool], want: bool, out: &mut Vec<usize>)
    ensures
        final(out)@ == old(out)@ + picks(is_v4@, want, is_v4@.len()),
{
    let ghost start = out@;
    let mut i: usize = 0;
    while i < is_v4.len()
        invariant
            i <= is_v4@.len(),
            out@ == start + picks(is_v4@, want, i as nat),
        decreases is_v4@.len() - i,
    {
        if is_v4[i] == want {
            out.push(i);
            assert(out@ =~= start + picks(is_v4@, want, (i + 1) as nat));
        } else {
            assert(picks(is_v4@, want, (i + 1) as nat) == picks(is_v4@, want, i as nat));
        }
        i = i + 1;
    }
}

/// The order in which to try connecting to the resolved addresses
/// (`is_v4[i]` tells whether address `i` is IPv4): their indices, IPv4
/// first. The connection is refused only when every one of them fails.
pub fn connect_order(is_v4: &[bool]) -> (r: Vec<usize>)
    ensures
        r@ == v4_first(is_v4@),
{
    let mut r: Vec<usize> = Vec::new();
    collect_picks(is_v4, true, &mut r);
    collect_picks(is_v4, false, &mut r);
    assert(r@ =~= v4_first(is_v4@));
    r
}

/// A client's UDP datagram: RSV (2 bytes), FRAG, then the destination
/// address and the payload. Only unfragmented datagrams of at least ten
/// bytes with a readable address are relayed; gives the destination and
/// where the payload starts.
pub open spec fn udp_request_at(data: Seq<u8>) -> Option<(AddressView, int)> {
    if data.len() < 10 || data[2] != 0 {
        None
    } else {
        match address_at(data.subrange(3, data.len() as int)) {
            Ok((a, n)) => Some((a, 3 + n)),
            Err(_) => None,
        }
    }
}

/// A datagram framed as `udp_reply` frames it reads back, as a request,
/// as the same IPv4 address and port, with its payload right after the
/// ten-byte header.
pub proof fn lemma_udp_roundtrip(ip: [u8; 4], port: u16, data: Seq<u8>)
    ensures
        udp_request_at(seq![0u8, 0u8, 0u8, ATYP_IPV4] + ip@ + u16_bytes(port) + data)
            == Some((AddressView::Ipv4(ip@, port), 10int)),
{
    let w = seq![0u8, 0u8, 0u8, ATYP_IPV4] + ip@ + u16_bytes(port) + data;
    let a = w.subrange(3, w.len() as int);
    assert(a.subrange(1, 5) =~= ip@);
    assert(a[0] == ATYP_IPV4);
    assert(a[5] == u16_bytes(port)[0] && a[6] == u16_bytes(port)[1]);
    lemma_be16_roundtrip(port);
}

/// The port of an address on the wire is in network byte order: the byte
/// after the IPv4 or IPv6 address (or after the domain name) is the high
/// byte and the next one the low byte. Reading an IPv4 or IPv6 address
/// takes the bytes after the type as the address and reads the port so.
pub proof fn lemma_address_port_order(data: Seq<u8>)
    ensures
        data.len() >= 7 && data[0] == ATYP_IPV4 ==> address_at(data) == Ok::<(AddressView, int), ProxyError>((
            AddressView::Ipv4(data.subrange(1, 5), (data[5] as int * 256 + data[6] as int) as u16),
            7,
        )),
        data.len() >= 19 && data[0] == ATYP_IPV6 ==> address_at(data) == Ok::<(AddressView, int), ProxyError>((
            AddressView::Ipv6(data.subrange(1, 17), (data[17] as int * 256 + data[18] as int) as u16),
            19,
        )),
        address_at(data) matches Ok((AddressView::Domain(_, port), n)) ==> n >= 4 && n <= data.len()
            && port as int == data[n - 2] as int * 256 + data[n - 1] as int,
{
}

/// Writing an address puts its port last, high byte first.
pub proof fn lemma_address_wire_port(a: AddressView)
    ensures
        ({
            let w = address_wire(a);
            let port = match a {
                AddressView::Ipv4(_, p) => p,
                AddressView::Ipv6(_, p) => p,
                AddressView::Domain(_, p) => p,
            };
            &&& w.len() >= 3
            &&& w[w.len() - 2] as int * 256 + w[w.len() - 1] as int == port as int
        }),
{
    let w = address_wire(a);
    match a {
        AddressView::Ipv4(ip, p) => {
            assert(w[w.len() - 2] == u16_bytes(p)[0] && w[w.len() - 1] == u16_bytes(p)[1]);
        },
        AddressView::Ipv6(ip, p) => {
            assert(w[w.len() - 2] == u16_bytes(p)[0] && w[w.len() - 1] == u16_bytes(p)[1]);
        },
        AddressView::Domain(d, p) => {
            assert(w[w.len() - 2] == u16_bytes(p)[0] && w[w.len() - 1] == u16_bytes(p)[1]);
        },
    }
}

pub fn parse_udp_request(data: &[u8]) -> (r: Option<(Address, usize)>)
    ensures
        match r {
            Some((a, p)) => udp_request_at(data@) == Some((a@, p as int)),
            None => udp_request_at(data@) is None,
        },
{
    if data.len() < 10 || data[2] != 0 {
        return None;
    }
    let rest = &data[3..data.len()];
    assert(rest@ == data@.subrange(3, data@.len() as int));
    match Address::from_socks5(rest) {
        Ok((a, n)) => Some((a, 3 + n)),
        Err(_) => None,
    }
}

/// The datagram relayed back to the client for a reply from an IPv4 peer:
/// RSV, FRAG 0, the peer's address and port, then the payload.
pub fn udp_reply(peer_ip: [u8; 4], peer_port: u16, data: &[u8]) -> (r: Vec<u8>)
    ensures
        r@ == seq![0u8, 0u8, 0u8, ATYP_IPV4] + peer_ip@ + u16_bytes(peer_port) + data@,
{
    let mut reply: Vec<u8> = Vec::new();
    reply.push(0x00);
    reply.push(0x00);
    reply.push(0x00);
    reply.push(ATYP_IPV4);
    push_all(&mut reply, &peer_ip);
    push_be16(&mut reply, peer_port);
    push_all(&mut reply, data);
    reply
}

} // verus!
