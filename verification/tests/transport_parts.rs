use p3p::addr::PeerAddr;
use p3p::connection_pool::ConnectionPool;
use p3p::framing::{
    decode_payload, encode_frame, payload_len, read_error_means_no_message, read_frame, FrameError,
    FrameRead, ReadErrorKind, ReadStage,
};
use p3p::ipv6::Segments;
use p3p::text::str_chars;
use p3p::transport::{BindStep, BindingPortRange};

fn parse(s: &str) -> Option<PeerAddr> {
    p3p::addr::parse_addr_chars(&str_chars(s))
}

#[test]
fn addresses_are_written() {
    assert_eq!(PeerAddr::new(127, 0, 0, 1, 8080).to_string(), "127.0.0.1:8080");
    assert_eq!(PeerAddr::new(0, 0, 0, 0, 0).to_string(), "0.0.0.0:0");
    assert_eq!(PeerAddr::new(255, 255, 255, 255, 65535).to_string(), "255.255.255.255:65535");
    let mut a = PeerAddr::new(1, 2, 3, 4, 5);
    a.set_port(6);
    assert_eq!(a, PeerAddr::new(1, 2, 3, 4, 6));
    assert!(a.same(&PeerAddr::new(1, 2, 3, 4, 6)));
    assert!(!a.same(&PeerAddr::new(1, 2, 3, 4, 5)));
}

#[test]
fn addresses_are_read() {
    assert_eq!(parse("10.0.0.1:4000"), Some(PeerAddr::new(10, 0, 0, 1, 4000)));
    assert_eq!(parse("0.0.0.0:0080"), Some(PeerAddr::new(0, 0, 0, 0, 80)));
    assert_eq!(parse("256.0.0.1:1"), None);
    assert_eq!(parse("1.2.3:4"), None);
    assert_eq!(parse("1.2.3.4.5:6"), None);
    assert_eq!(parse("01.2.3.4:5"), None);
    assert_eq!(parse("1.2.3.4:65536"), None);
    assert_eq!(parse("1.2.3.4:"), None);
    assert_eq!(parse("1.2.3.4"), None);
    assert_eq!(parse(":80"), None);
    assert_eq!(parse("1.2.3.4:+80"), None);
    assert_eq!(parse("1.2.3.4:8:0"), None);
}

#[test]
fn frames_are_written() {
    assert_eq!(encode_frame("hi"), Ok(vec![2, b'h', b'i']));
    assert_eq!(encode_frame(""), Ok(vec![0]));
    assert_eq!(encode_frame("é"), Ok(vec![2, 0xc3, 0xa9]));
    let long = "x".repeat(255);
    assert_eq!(encode_frame(&long).unwrap().len(), 256);
    let too_long = "x".repeat(256);
    assert_eq!(encode_frame(&too_long), Err(FrameError::MessageTooLong));
    let wide = "é".repeat(128);
    assert_eq!(encode_frame(&wide), Err(FrameError::MessageTooLong));
}

#[test]
fn frames_are_read() {
    match read_frame(&vec![2, b'h', b'i', 7]) {
        FrameRead::Frame(m, n) => {
            assert_eq!(m.msg, "hi");
            assert_eq!(n, 3);
        },
        other => panic!("unexpected {:?}", other),
    }
    assert!(matches!(read_frame(&vec![]), FrameRead::Incomplete));
    assert!(matches!(read_frame(&vec![3, b'h']), FrameRead::Incomplete));
    assert!(matches!(read_frame(&vec![1, 0xff, 9]), FrameRead::Invalid(2)));
    match read_frame(&vec![0]) {
        FrameRead::Frame(m, n) => {
            assert_eq!(m.msg, "");
            assert_eq!(n, 1);
        },
        other => panic!("unexpected {:?}", other),
    }
    assert_eq!(payload_len(200), 200);
    assert_eq!(decode_payload(vec![0xc3, 0xa9]), Ok("é".to_string()));
    assert_eq!(decode_payload(vec![0xc3]), Err(FrameError::InvalidUtf8));
}

#[test]
fn written_frames_read_back() {
    let text = "FROM 3 PORT 8080 TO 1.2.3.4:5 PING";
    let mut buf = encode_frame(text).unwrap();
    buf.extend_from_slice(&[5, b'a']);
    match read_frame(&buf) {
        FrameRead::Frame(m, n) => {
            assert_eq!(m.msg, text);
            assert_eq!(n, text.len() + 1);
            assert!(matches!(read_frame(&buf[n..].to_vec()), FrameRead::Incomplete));
        },
        other => panic!("unexpected {:?}", other),
    }
}

#[test]
fn port_range_steps() {
    let r = BindingPortRange { start: 4000, end: 4002 };
    assert_eq!(r.first_step(), BindStep::Try(4000));
    assert_eq!(r.next_step(4000), BindStep::Try(4001));
    assert_eq!(r.next_step(4001), BindStep::Try(4002));
    assert_eq!(r.next_step(4002), BindStep::Exhausted);
    let one = BindingPortRange { start: 7, end: 7 };
    assert_eq!(one.first_step(), BindStep::Try(7));
    assert_eq!(one.next_step(7), BindStep::Exhausted);
    let empty = BindingPortRange { start: 9, end: 8 };
    assert_eq!(empty.first_step(), BindStep::Exhausted);
    let top = BindingPortRange { start: 65534, end: 65535 };
    assert_eq!(top.next_step(65534), BindStep::Try(65535));
    assert_eq!(top.next_step(65535), BindStep::Exhausted);
}

#[test]
fn port_range_visits_every_port_once() {
    let r = BindingPortRange { start: 8080, end: 8090 };
    let mut seen = Vec::new();
    let mut step = r.first_step();
    while let BindStep::Try(p) = step {
        seen.push(p);
        step = r.next_step(p);
    }
    assert_eq!(seen, (8080..=8090).collect::<Vec<u16>>());
}

#[test]
fn pool_hands_out_and_takes_back() {
    let a = PeerAddr::new(1, 1, 1, 1, 1);
    let b = PeerAddr::new(2, 2, 2, 2, 2);
    let mut pool: ConnectionPool<&str> = ConnectionPool::new();
    assert_eq!(pool.get(&a), None);
    assert_eq!(pool.return_connection(a, "first"), None);
    assert!(pool.contains_key(&a));
    assert_eq!(pool.get(&a), Some("first"));
    assert!(!pool.contains_key(&a));
    assert_eq!(pool.get(&a), None);
    assert_eq!(pool.return_connection(a, "first"), None);
    assert_eq!(pool.return_connection(b, "other"), None);
    assert_eq!(pool.get(&b), Some("other"));
    assert_eq!(pool.get(&a), Some("first"));
}

#[test]
fn pool_newer_connection_wins() {
    let a = PeerAddr::new(1, 1, 1, 1, 1);
    let mut pool: ConnectionPool<u32> = ConnectionPool::new();
    assert_eq!(pool.replace(a, 1), None);
    assert_eq!(pool.return_connection(a, 2), Some(2));
    assert_eq!(pool.replace(a, 3), Some(1));
    assert_eq!(pool.remove(&a), Some(3));
    assert_eq!(pool.remove(&a), None);
    assert!(!pool.contains_key(&a));
}

#[test]
fn written_addresses_read_back() {
    for a in [
        PeerAddr::new(0, 0, 0, 0, 0),
        PeerAddr::new(10, 20, 30, 40, 5000),
        PeerAddr::new(255, 1, 100, 9, 65535),
    ] {
        assert_eq!(parse(&a.to_string()), Some(a));
    }
}

fn v6(g: [u16; 8], scope: u32, port: u16) -> PeerAddr {
    PeerAddr::new_v6(Segments(g[0], g[1], g[2], g[3], g[4], g[5], g[6], g[7]), scope, port)
}

#[test]
fn ipv6_addresses_are_read() {
    assert_eq!(parse("[::1]:80"), Some(v6([0, 0, 0, 0, 0, 0, 0, 1], 0, 80)));
    assert_eq!(
        parse("[2001:DB8::ff00:42:8329]:443"),
        Some(v6([0x2001, 0xdb8, 0, 0, 0, 0xff00, 0x42, 0x8329], 0, 443))
    );
    assert_eq!(parse("[::ffff:1.2.3.4]:5"), Some(v6([0, 0, 0, 0, 0, 0xffff, 0x102, 0x304], 0, 5)));
    assert_eq!(parse("[::1.2.3.4]:5"), Some(v6([0, 0, 0, 0, 0, 0, 0x102, 0x304], 0, 5)));
    assert_eq!(parse("[fe80::1%3]:80"), Some(v6([0xfe80, 0, 0, 0, 0, 0, 0, 1], 3, 80)));
    assert_eq!(parse("[1:2:3:4:5:6:7::]:1"), Some(v6([1, 2, 3, 4, 5, 6, 7, 0], 0, 1)));
    assert_eq!(parse("[1:2:3:4:5:6:1.2.3.4]:1"), Some(v6([1, 2, 3, 4, 5, 6, 0x102, 0x304], 0, 1)));
    assert_eq!(parse("[::]:0"), Some(v6([0; 8], 0, 0)));
}

#[test]
fn ipv6_addresses_refused() {
    for s in [
        "[::1]",
        "[::1]:",
        "[1::2::3]:1",
        "[12345::]:1",
        "[::1%]:1",
        "[::1%x]:1",
        "[1.2.3.4::]:1",
        "[::1:2:3:4:5:6:7:8]:1",
        "[1:2:3:4:5:6:7:8:9]:1",
        "[1:2:3:4:5:6:7]:1",
        "[::g]:1",
        "::1:80",
        "[::1]:70000",
        "[:1::]:1",
    ] {
        assert_eq!(parse(s), None, "{}", s);
    }
}

#[test]
fn ipv6_addresses_are_written() {
    assert_eq!(v6([0, 0, 0, 0, 0, 0, 0, 1], 0, 80).to_string(), "[::1]:80");
    assert_eq!(v6([0; 8], 0, 1).to_string(), "[::]:1");
    assert_eq!(
        v6([0x2001, 0xdb8, 0, 0, 0, 0xff00, 0x42, 0x8329], 0, 443).to_string(),
        "[2001:db8::ff00:42:8329]:443"
    );
    assert_eq!(v6([1, 0, 0, 1, 0, 0, 0, 1], 0, 1).to_string(), "[1:0:0:1::1]:1");
    assert_eq!(v6([1, 0, 0, 1, 0, 0, 1, 1], 0, 1).to_string(), "[1::1:0:0:1:1]:1");
    assert_eq!(v6([1, 2, 3, 4, 5, 6, 7, 0], 0, 1).to_string(), "[1:2:3:4:5:6:7:0]:1");
    assert_eq!(v6([0, 0, 0, 0, 0, 0xffff, 0x102, 0x304], 0, 5).to_string(), "[::ffff:1.2.3.4]:5");
    assert_eq!(v6([0, 0, 0, 0, 0, 0, 0x102, 0x304], 0, 5).to_string(), "[::102:304]:5");
    assert_eq!(v6([0xfe80, 0, 0, 0, 0, 0, 0, 1], 3, 80).to_string(), "[fe80::1%3]:80");
}

#[test]
fn written_ipv6_addresses_read_back() {
    for a in [
        v6([0, 0, 0, 0, 0, 0, 0, 1], 0, 80),
        v6([0xffff; 8], 7, 65535),
        v6([0, 0, 0, 0, 0, 0xffff, 0xc0a8, 0x0101], 0, 4000),
        v6([1, 0, 2, 0, 0, 3, 0, 0], 0, 1),
    ] {
        assert_eq!(parse(&a.to_string()), Some(a));
    }
}

#[test]
fn bind_errors_move_on_only_when_in_use() {
    let r = BindingPortRange { start: 10, end: 11 };
    assert_eq!(r.after_bind_error(10, true), Some(BindStep::Try(11)));
    assert_eq!(r.after_bind_error(11, true), Some(BindStep::Exhausted));
    assert_eq!(r.after_bind_error(10, false), None);
}

#[test]
fn read_errors_that_mean_no_message() {
    assert!(read_error_means_no_message(ReadStage::Length, ReadErrorKind::UnexpectedEof));
    assert!(read_error_means_no_message(ReadStage::Length, ReadErrorKind::WouldBlock));
    assert!(read_error_means_no_message(ReadStage::Payload, ReadErrorKind::WouldBlock));
    assert!(!read_error_means_no_message(ReadStage::Payload, ReadErrorKind::UnexpectedEof));
    assert!(!read_error_means_no_message(ReadStage::Length, ReadErrorKind::Other));
}
