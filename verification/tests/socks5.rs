use nettools::socks5::{
    address_extra, check_version, choose_method, connect_order, connect_reply, parse_request_header, parse_udp_request, reply_bytes,
    udp_reply, Address, Command, ConnectOutcome, IoFailure, ProxyError, ReplyCode,
};

#[test]
fn address_roundtrips() {
    let addrs = vec![
        Address::Ipv4([10, 0, 0, 1], 8080),
        Address::Ipv6([7; 16], 443),
        Address::Domain("example.com".to_string(), 80),
    ];
    for a in addrs {
        let bytes = a.to_socks5_bytes();
        let (back, used) = Address::from_socks5(&bytes).expect("reads back");
        assert_eq!(used, bytes.len());
        assert_eq!(format!("{:?}", back), format!("{:?}", a));
    }
}

#[test]
fn address_wire_forms() {
    assert_eq!(Address::Ipv4([1, 2, 3, 4], 0x1F90).to_socks5_bytes(), vec![1, 1, 2, 3, 4, 0x1F, 0x90]);
    assert_eq!(Address::Domain("ab".into(), 1).to_socks5_bytes(), vec![3, 2, b'a', b'b', 0, 1]);
}

#[test]
fn address_errors() {
    assert!(matches!(Address::from_socks5(&[]), Err(ProxyError::SocksInvalidAddressType(0xFF))));
    assert!(matches!(Address::from_socks5(&[9, 0]), Err(ProxyError::SocksInvalidAddressType(9))));
    assert!(matches!(Address::from_socks5(&[1, 1, 2]), Err(ProxyError::Io(IoFailure::UnexpectedEof))));
    assert!(matches!(Address::from_socks5(&[3]), Err(ProxyError::Io(IoFailure::UnexpectedEof))));
    assert!(matches!(Address::from_socks5(&[3, 4, b'a', b'b']), Err(ProxyError::Io(IoFailure::UnexpectedEof))));
    assert!(matches!(Address::from_socks5(&[3, 1, 0xff, 0, 80]), Err(ProxyError::Io(IoFailure::InvalidData))));
    assert!(matches!(Address::from_socks5(&[4, 0, 0]), Err(ProxyError::Io(IoFailure::UnexpectedEof))));
}

#[test]
fn negotiation_and_requests() {
    assert!(check_version(5).is_ok());
    assert!(matches!(check_version(4), Err(ProxyError::SocksInvalidVersion(4))));
    let (reply, ok) = choose_method(&[2, 0]);
    assert_eq!(reply, [5, 0]);
    assert!(ok.is_ok());
    let (reply, err) = choose_method(&[2]);
    assert_eq!(reply, [5, 0xFF]);
    assert!(matches!(err, Err(ProxyError::SocksMethodNotSupported)));
    assert_eq!(Command::from_u8(1), Some(Command::TcpConnect));
    assert_eq!(Command::from_u8(3), Some(Command::UdpAssociate));
    assert_eq!(Command::from_u8(2), None);
    assert!(matches!(parse_request_header([5, 1, 0, 3]), Ok((Command::TcpConnect, 3))));
    assert!(matches!(parse_request_header([5, 2, 0, 1]), Err(ProxyError::SocksInvalidCommand(2))));
    assert!(matches!(parse_request_header([4, 1, 0, 1]), Err(ProxyError::SocksInvalidVersion(4))));
    assert_eq!(address_extra(1, 0).ok(), Some(6));
    assert_eq!(address_extra(3, 10).ok(), Some(13));
    assert_eq!(address_extra(4, 0).ok(), Some(18));
    assert!(matches!(address_extra(7, 0), Err(ProxyError::SocksInvalidAddressType(7))));
}

#[test]
fn replies_and_datagrams() {
    let r = reply_bytes(ReplyCode::HostUnreachable, &Address::Ipv4([0, 0, 0, 0], 0));
    assert_eq!(r, vec![5, 4, 0, 1, 0, 0, 0, 0, 0, 0]);
    assert_eq!(ReplyCode::ConnectionRefused.code(), 5);
    let dgram = vec![0, 0, 0, 1, 8, 8, 8, 8, 0, 53, b'q'];
    let (a, start) = parse_udp_request(&dgram).expect("relayable");
    assert_eq!(start, 10);
    assert!(matches!(a, Address::Ipv4([8, 8, 8, 8], 53)));
    let mut frag = dgram.clone();
    frag[2] = 1;
    assert!(parse_udp_request(&frag).is_none());
    assert!(parse_udp_request(&dgram[..9]).is_none());
    assert_eq!(udp_reply([1, 2, 3, 4], 0x0102, b"z"), vec![0, 0, 0, 1, 1, 2, 3, 4, 1, 2, b'z']);
}

#[test]
fn relayed_datagram_header_reads_back() {
    let framed = udp_reply([192, 168, 1, 9], 5353, b"payload");
    let (a, start) = parse_udp_request(&framed).expect("relayable");
    assert!(matches!(a, Address::Ipv4([192, 168, 1, 9], 5353)));
    assert_eq!(&framed[start..], b"payload");
}

#[test]
fn connect_outcomes_get_their_replies() {
    assert_eq!(connect_reply(ConnectOutcome::ResolveFailed), vec![5, 4, 0, 1, 0, 0, 0, 0, 0, 0]);
    assert_eq!(connect_reply(ConnectOutcome::ConnectFailed), vec![5, 5, 0, 1, 0, 0, 0, 0, 0, 0]);
    assert_eq!(connect_reply(ConnectOutcome::Connected), vec![5, 0, 0, 1, 0, 0, 0, 0, 0, 0]);
}

#[test]
fn ipv4_candidates_are_tried_first() {
    assert_eq!(connect_order(&[false, true, false, true]), vec![1, 3, 0, 2]);
    assert_eq!(connect_order(&[false]), vec![0]);
    assert!(connect_order(&[]).is_empty());
}
