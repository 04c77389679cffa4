use adb::ip::IpAddr;
use adb::ip::Ipv4Addr;
use adb::ip::Ipv6Addr;
use adb::socket::AcceptFd;
use adb::socket::Dev;
use adb::socket::DevRaw;
use adb::socket::Jdwp;
use adb::socket::LocalAbstract;
use adb::socket::LocalFileSystem;
use adb::socket::LocalReserved;
use adb::socket::Tcp;
use adb::socket::Vsock;

fn tcp_common() -> Vec<(&'static str, Tcp)> {
    vec![
        ("tcp:5555", Tcp::from_port(5555)),
        ("tcp:127.0.0.1", Tcp::from_ipv4(Ipv4Addr::new(127, 0, 0, 1))),
        (
            "tcp:[::1]",
            Tcp::from_ipv6(Ipv6Addr::new(0, 0, 0, 0, 0, 0, 0, 1)),
        ),
        (
            "tcp:127.0.0.1:5555",
            Tcp::new(IpAddr::V4(Ipv4Addr::new(127, 0, 0, 1)), 5555),
        ),
        (
            "tcp:[::1]:5555",
            Tcp::new(IpAddr::V6(Ipv6Addr::new(0, 0, 0, 0, 0, 0, 0, 1)), 5555),
        ),
    ]
}

const TCP_PARSE_ERR: [&str; 30] = [
    "",
    "tcp:",
    // incomplete address
    "tcp:127.0",
    "tcp:127.0:5555",
    "tcp:[]",
    "tcp:[]:5555",
    "tcp:[:]",
    "tcp:[:5555]",
    "tcp:5555:",
    // IPv6 address without square brackets
    "tcp:::",
    "tcp:::1",
    "tcp:::1:5555",
    "tcp:ffff::1:5555",
    "tcp:1111:2222:3333:4444:5555:6666:7777:8888",
    "tcp:1111:2222:3333:4444:5555:6666:7777:8888:5555",
    // IP address out of range
    "tcp:256.0.0.0",
    "tcp:256.-1.0.0",
    "tcp:[gggg::]",
    "tcp:[::gggg]",
    // port out of range
    "tcp:-1",
    "tcp:65536",
    // socket address out of range
    "tcp:256.0.0.0:-1",
    "tcp:256.0.0.0:5555",
    "tcp:256.0.0.0:65536",
    "tcp:256.-1.0.0:5555",
    "tcp:[gggg::]:5555",
    "tcp:[::gggg]:5555",
    // invalid characters
    "tcp:abcd",
    "tcp:a.b.c.d",
    "tcp:a.b.c.d:p",
];

#[test]
fn test_tcp_display() {
    for (s, tcp) in tcp_common() {
        assert_eq!(s, tcp.format());
    }
}

#[test]
fn test_tcp_parse() {
    for (s, tcp) in tcp_common() {
        assert_eq!(tcp, Tcp::parse(s).unwrap());
    }
    for s in TCP_PARSE_ERR {
        assert!(Tcp::parse(s).is_err(), "{}", s);
    }
}

#[test]
fn test_local_abstract_display() {
    let local_abstract = LocalAbstract("socket".to_string());
    assert_eq!("localabstract:socket", local_abstract.format());
}

#[test]
fn test_local_abstract_parse() {
    let local_abstract = LocalAbstract("socket".to_string());
    assert_eq!(local_abstract, LocalAbstract::parse("localabstract:socket").unwrap());
}

#[test]
fn test_local_reserved_display() {
    let local_reserved = LocalReserved("socket".to_string());
    assert_eq!("localreserved:socket", local_reserved.format());
}

#[test]
fn test_local_reserved_parse() {
    let local_reserved = LocalReserved("socket".to_string());
    assert_eq!(local_reserved, LocalReserved::parse("localreserved:socket").unwrap());
}

#[test]
fn test_local_file_system_display() {
    let local_file_system = LocalFileSystem("/path/to/socket".to_string());
    assert_eq!("localfilesystem:/path/to/socket", local_file_system.format());
}

#[test]
fn test_local_file_system_parse() {
    let local_file_system = LocalFileSystem("/path/to/socket".to_string());
    assert_eq!(
        local_file_system,
        LocalFileSystem::parse("localfilesystem:/path/to/socket").unwrap()
    );
}

#[test]
fn test_dev_display() {
    let dev = Dev("/dev/tty".to_string());
    assert_eq!("dev:/dev/tty", dev.format());
}

#[test]
fn test_dev_parse() {
    let dev = Dev("/dev/tty".to_string());
    assert_eq!(dev, Dev::parse("dev:/dev/tty").unwrap());
}

#[test]
fn test_dev_raw_display() {
    let dev_raw = DevRaw("/dev/tty".to_string());
    assert_eq!("dev-raw:/dev/tty", dev_raw.format());
}

#[test]
fn test_dev_raw_parse() {
    let dev_raw = DevRaw("/dev/tty".to_string());
    assert_eq!(dev_raw, DevRaw::parse("dev-raw:/dev/tty").unwrap());
}

const OVERFLOW: u64 = u32::MAX as u64 + 1;

#[test]
fn test_jdwp_display() {
    let jdwp = Jdwp(1234);
    assert_eq!("jdwp:1234", jdwp.format());
}

#[test]
fn test_jdwp_parse() {
    let jdwp = Jdwp(1234);
    assert_eq!(jdwp, Jdwp::parse("jdwp:1234").unwrap());
    let err = ["jdwp", "jdwp:", "jdwp:-1", &format!("jdwp:{}", OVERFLOW)];
    for s in &err {
        assert!(Jdwp::parse(s).is_err(), "{}", s);
    }
}

#[test]
fn test_vsock_display() {
    let vsock = Vsock { cid: 1, port: 2 };
    assert_eq!("vsock:1:2", vsock.format());
}

#[test]
fn test_vsock_parse() {
    let vsock = Vsock { cid: 1, port: 2 };
    assert_eq!(vsock, Vsock::parse("vsock:1:2").unwrap());
    let err = [
        "vsock",
        "vsock:",
        "vsock:1",
        "vsock::1",
        "vsock:1:",
        "vsock:-1",
        "vsock:-1:-1",
        &format!("vsock:1:{}", OVERFLOW),
        &format!("vsock:{}:2", OVERFLOW),
        &format!("vsock:{}:{}", OVERFLOW, OVERFLOW),
    ];
    for s in &err {
        assert!(Vsock::parse(s).is_err(), "{}", s);
    }
}

#[test]
fn test_accept_fd_display() {
    let accept_fd = AcceptFd(1);
    assert_eq!("acceptfd:1", accept_fd.format());
}

#[test]
fn test_accept_fd_parse() {
    let accept_fd = AcceptFd(1);
    assert_eq!(accept_fd, AcceptFd::parse("acceptfd:1").unwrap());
    let err = [
        "acceptfd",
        "acceptfd:",
        "acceptfd:-1",
        &format!("acceptfd:{}", OVERFLOW),
    ];
    for s in &err {
        assert!(AcceptFd::parse(s).is_err(), "{}", s);
    }
}
