use btrs::dht::contact::SockAddr;
use btrs::netaddr::{parse_ip, parse_sock_addr, IpValue};

#[test]
fn sock_addr_v4() {
    assert_eq!(Some(SockAddr::V4(0x0101_0101, 10000)), parse_sock_addr("1.1.1.1:10000"));
    assert_eq!(Some(SockAddr::V4(0xc0a8_0001, 80)), parse_sock_addr("192.168.0.1:80"));
    assert_eq!(Some(SockAddr::V4(0, 0)), parse_sock_addr("0.0.0.0:0"));
    assert_eq!(Some(SockAddr::V4(0xffff_ffff, 65535)), parse_sock_addr("255.255.255.255:65535"));
}

#[test]
fn sock_addr_v4_port_leading_zeros() {
    assert_eq!(Some(SockAddr::V4(0x7f00_0001, 80)), parse_sock_addr("127.0.0.1:00080"));
}

#[test]
fn sock_addr_v4_refused() {
    assert_eq!(None, parse_sock_addr("1.1.1.1"));
    assert_eq!(None, parse_sock_addr("1.1.1:80"));
    assert_eq!(None, parse_sock_addr("256.1.1.1:80"));
    assert_eq!(None, parse_sock_addr("01.1.1.1:80"));
    assert_eq!(None, parse_sock_addr("1.1.1.1:65536"));
    assert_eq!(None, parse_sock_addr("1.1.1.1:80x"));
    assert_eq!(None, parse_sock_addr("1.1.1.1:"));
    assert_eq!(None, parse_sock_addr("1.1.1.1111:80"));
    assert_eq!(None, parse_sock_addr("xxxyyyzzz"));
    assert_eq!(None, parse_sock_addr(""));
    assert_eq!(None, parse_sock_addr("1.1.1.1:8é"));
}

#[test]
fn sock_addr_v6() {
    assert_eq!(Some(SockAddr::V6(1, 80)), parse_sock_addr("[::1]:80"));
    assert_eq!(Some(SockAddr::V6(0, 6881)), parse_sock_addr("[::]:6881"));
    assert_eq!(
        Some(SockAddr::V6(0x2001_0db8_0000_0000_0000_0000_0000_0001, 443)),
        parse_sock_addr("[2001:db8::1]:443")
    );
    assert_eq!(
        Some(SockAddr::V6(0x0001_0002_0003_0004_0005_0006_0007_0008, 1)),
        parse_sock_addr("[1:2:3:4:5:6:7:8]:1")
    );
    assert_eq!(
        Some(SockAddr::V6(0x0000_0000_0000_0000_0000_ffff_0102_0304, 9)),
        parse_sock_addr("[::ffff:1.2.3.4]:9")
    );
    assert_eq!(Some(SockAddr::V6(0xfe80_0000_0000_0000_0000_0000_0000_0001, 80)), parse_sock_addr("[fe80::1%2]:80"));
    assert_eq!(Some(SockAddr::V6(0xABCD << 112, 5)), parse_sock_addr("[ABCD::]:5"));
}

#[test]
fn sock_addr_v6_refused() {
    assert_eq!(None, parse_sock_addr("[::1]"));
    assert_eq!(None, parse_sock_addr("::1:80"));
    assert_eq!(None, parse_sock_addr("[1:2:3:4:5:6:7:8:9]:80"));
    assert_eq!(None, parse_sock_addr("[12345::]:80"));
    assert_eq!(None, parse_sock_addr("[1::2::3]:80"));
    assert_eq!(None, parse_sock_addr("[1.2.3.4::]:80"));
    assert_eq!(None, parse_sock_addr("[::g]:80"));
}

#[test]
fn ip_addrs() {
    assert_eq!(Some(IpValue::V4(0x0a00_0001)), parse_ip("10.0.0.1"));
    assert_eq!(Some(IpValue::V6(1)), parse_ip("::1"));
    assert_eq!(Some(IpValue::V6(0x2001_0db8_0000_0000_0000_0000_0000_0000)), parse_ip("2001:db8::"));
    assert_eq!(None, parse_ip("10.0.0.1:80"));
    assert_eq!(None, parse_ip("tracker.example.com"));
    assert_eq!(None, parse_ip(""));
    assert_eq!(Some(SockAddr::V4(0x0a00_0001, 7)), parse_ip("10.0.0.1").map(|ip| ip.with_port(7)));
}
