use adb::error::AdbError;
use adb::ip::IpAddr;
use adb::ip::Ipv4Addr;
use adb::ip::Ipv6Addr;
use adb::socket::AcceptFd;
use adb::socket::AdbSocketFamilies;
use adb::socket::Jdwp;
use adb::socket::LocalAbstract;
use adb::socket::Tcp;
use adb::socket::Vsock;

#[test]
fn sentinel_formats_empty_and_never_parses() {
    let sentinel = Tcp { ip: None, port: None };
    assert_eq!("", sentinel.format());
    assert!(Tcp::parse("tcp:").is_err());
    assert!(Tcp::parse("").is_err());
    assert!(AdbSocketFamilies::parse("tcp:").is_err());
    assert!(AdbSocketFamilies::parse("").is_err());
}

#[test]
fn port_boundary() {
    assert_eq!(Tcp::from_port(65535), Tcp::parse("tcp:65535").unwrap());
    assert!(Tcp::parse("tcp:65536").is_err());
    assert!(Tcp::parse("tcp:-1").is_err());
    assert!(Tcp::parse("tcp:+1").is_err());
    // leading zeros are tolerated in a port numeral
    assert_eq!(Tcp::from_port(55), Tcp::parse("tcp:0055").unwrap());
}

#[test]
fn u32_boundary() {
    assert_eq!(Jdwp(4294967295), Jdwp::parse("jdwp:4294967295").unwrap());
    assert!(Jdwp::parse("jdwp:4294967296").is_err());
    assert_eq!(AcceptFd(4294967295), AcceptFd::parse("acceptfd:4294967295").unwrap());
    assert!(AcceptFd::parse("acceptfd:4294967296").is_err());
    let vsock = Vsock { cid: 4294967295, port: 0 };
    assert_eq!(vsock, Vsock::parse("vsock:4294967295:0").unwrap());
    assert!(Vsock::parse("vsock:4294967296:0").is_err());
    assert!(Jdwp::parse("jdwp:+1").is_err());
}

#[test]
fn ipv6_bracket_requirement() {
    assert!(Tcp::parse("tcp:::1").is_err());
    let parsed = Tcp::parse("tcp:[::1]").unwrap();
    assert_eq!(Tcp::from_ipv6(Ipv6Addr::new(0, 0, 0, 0, 0, 0, 0, 1)), parsed);
    assert_eq!("tcp:[::1]", parsed.format());
}

#[test]
fn ipv6_text_forms() {
    // leading zeros inside a group and upper-case digits are read, and the
    // canonical text writes them minimal and lower-case
    let a = Tcp::parse("tcp:[0001:0:0:0:0:0:0:00AB]").unwrap();
    assert_eq!(Tcp::from_ipv6(Ipv6Addr::new(1, 0, 0, 0, 0, 0, 0, 0xab)), a);
    assert_eq!("tcp:[1::ab]", a.format());
    // the longest zero run is compressed, the leftmost among equals
    let b = Tcp::from_ipv6(Ipv6Addr::new(1, 0, 0, 2, 0, 0, 0, 3));
    assert_eq!("tcp:[1:0:0:2::3]", b.format());
    let c = Tcp::from_ipv6(Ipv6Addr::new(1, 0, 0, 2, 0, 0, 3, 4));
    assert_eq!("tcp:[1::2:0:0:3:4]", c.format());
    // a single zero group stays written out
    let d = Tcp::from_ipv6(Ipv6Addr::new(1, 0, 2, 3, 4, 5, 6, 7));
    assert_eq!("tcp:[1:0:2:3:4:5:6:7]", d.format());
    // every group zero
    let e = Tcp::from_ipv6(Ipv6Addr::new(0, 0, 0, 0, 0, 0, 0, 0));
    assert_eq!("tcp:[::]", e.format());
    // an embedded IPv4 tail is read as its two groups
    let f = Tcp::parse("tcp:[::ffff:1.2.3.4]").unwrap();
    assert_eq!(
        Tcp::from_ipv6(Ipv6Addr::new(0, 0, 0, 0, 0, 0xffff, 0x0102, 0x0304)),
        f
    );
    assert_eq!("tcp:[::ffff:102:304]", f.format());
    // too many groups, and a `::` standing for nothing, are rejected
    assert!(Tcp::parse("tcp:[1:2:3:4:5:6:7:8:9]").is_err());
    assert!(Tcp::parse("tcp:[1:2:3:4:5:6:7::8]").is_err());
    assert!(Tcp::parse("tcp:[1::2::3]").is_err());
    assert!(Tcp::parse("tcp:[12345::]").is_err());
}

#[test]
fn ipv4_leading_zeros_rejected() {
    assert!(Tcp::parse("tcp:01.2.3.4").is_err());
    assert!(Tcp::parse("tcp:1.2.3.04:80").is_err());
    assert_eq!(
        Tcp::from_ipv4(Ipv4Addr::new(0, 0, 0, 0)),
        Tcp::parse("tcp:0.0.0.0").unwrap()
    );
}

#[test]
fn end_to_end_wire_strings() {
    let vsock = Vsock::parse("vsock:1:2").unwrap();
    assert_eq!(Vsock { cid: 1, port: 2 }, vsock);
    assert_eq!("vsock:1:2", vsock.format());

    let jdwp = Jdwp::parse("jdwp:1234").unwrap();
    assert_eq!(Jdwp(1234), jdwp);
    assert_eq!("jdwp:1234", jdwp.format());

    let name = LocalAbstract::parse("localabstract:socket").unwrap();
    assert_eq!(LocalAbstract("socket".to_string()), name);
    assert_eq!("localabstract:socket", name.format());

    let tcp = Tcp::parse("tcp:127.0.0.1:5555").unwrap();
    assert_eq!(
        Tcp::new(IpAddr::V4(Ipv4Addr::new(127, 0, 0, 1)), 5555),
        tcp
    );
    assert_eq!("tcp:127.0.0.1:5555", tcp.format());
}

#[test]
fn union_dispatch_keeps_the_family() {
    let u = AdbSocketFamilies::parse("vsock:1:2").unwrap();
    assert_eq!(AdbSocketFamilies::Vsock(Vsock { cid: 1, port: 2 }), u);
    assert_eq!("vsock:1:2", u.format());

    let u = AdbSocketFamilies::parse("tcp:[::1]:5555").unwrap();
    assert_eq!(
        AdbSocketFamilies::Tcp(Tcp::new(
            IpAddr::V6(Ipv6Addr::new(0, 0, 0, 0, 0, 0, 0, 1)),
            5555
        )),
        u
    );
    assert_eq!("tcp:[::1]:5555", u.format());

    let u = AdbSocketFamilies::parse("localabstract:x").unwrap();
    assert_eq!(AdbSocketFamilies::LocalAbstract(LocalAbstract("x".to_string())), u);

    let u = AdbSocketFamilies::parse("dev:/dev/tty").unwrap();
    assert!(matches!(u, AdbSocketFamilies::Dev(_)));

    // dev-raw is not a member of the union
    assert!(AdbSocketFamilies::parse("dev-raw:/dev/tty").is_err());
    // an unknown tag matches no member
    assert!(AdbSocketFamilies::parse("udp:1234").is_err());
}

#[test]
fn union_round_trips_every_family() {
    let strings = [
        "tcp:5555",
        "tcp:127.0.0.1",
        "tcp:[::1]",
        "tcp:[1:0:2:3:4:5:6:7]:80",
        "localabstract:a",
        "localreserved:b",
        "localfilesystem:/c",
        "dev:/dev/d",
        "jdwp:7",
        "vsock:8:9",
        "acceptfd:10",
    ];
    for s in strings {
        let u = AdbSocketFamilies::parse(s).unwrap();
        assert_eq!(s, u.format(), "{}", s);
    }
}

#[test]
fn resolution_prefers_ipv4() {
    let v6 = IpAddr::V6(Ipv6Addr::new(0, 0, 0, 0, 0, 0, 0, 1));
    let v4a = IpAddr::V4(Ipv4Addr::new(127, 0, 0, 1));
    let v4b = IpAddr::V4(Ipv4Addr::new(10, 0, 0, 1));

    // an IPv4 candidate wins over an earlier IPv6 one
    let picked = Tcp::from_resolved(&vec![(v6, 1), (v4a, 2), (v4b, 3)]).unwrap();
    assert_eq!(Tcp::new(v4a, 2), picked);

    // without an IPv4 candidate the first candidate wins
    let picked = Tcp::from_resolved(&vec![(v6, 1)]).unwrap();
    assert_eq!(Tcp::new(v6, 1), picked);

    // no candidate, no address
    assert!(Tcp::from_resolved(&vec![]).is_none());
}

#[test]
fn error_carries_value_and_types() {
    let e = LocalAbstract::parse("foo").unwrap_err();
    assert_eq!(
        "failed when parsing `foo` from `&str` into `LocalAbstract`",
        e.message()
    );
    assert!(e.source().is_none());

    let e = Jdwp::parse("jdwp:abc").unwrap_err();
    assert_eq!("failed when parsing `abc` from `&str` into `u32`", e.message());

    let e = Vsock::parse("vsock:12").unwrap_err();
    assert_eq!("failed when parsing `12` from `&str` into `u32`", e.message());

    let e = Tcp::parse("tcp:[::zz]").unwrap_err();
    assert_eq!("failed when parsing `::zz` from `&str` into `Ipv6Addr`", e.message());

    let e = AdbSocketFamilies::parse("nothing").unwrap_err();
    assert_eq!(
        "failed when parsing `nothing` from `&str` into `AdbSocketFamilies`",
        e.message()
    );

    // a wrapped error is reachable through `source` and joins the message
    let inner = AdbError::Parse {
        value: "x".to_string(),
        source_type: "&str".to_string(),
        target_type: "u16".to_string(),
        source: None,
    };
    let outer = AdbError::Parse {
        value: "host:x".to_string(),
        source_type: "&str".to_string(),
        target_type: "Tcp".to_string(),
        source: Some(Box::new(inner)),
    };
    assert_eq!(
        "failed when parsing `host:x` from `&str` into `Tcp`: \
         failed when parsing `x` from `&str` into `u16`",
        outer.message()
    );
    assert_eq!(
        "failed when parsing `x` from `&str` into `u16`",
        outer.source().unwrap().message()
    );
}

#[test]
fn names_keep_their_remainder_verbatim() {
    // the remainder is taken verbatim, colons and empty text included
    let v = LocalAbstract::parse("localabstract:a:b:c").unwrap();
    assert_eq!(LocalAbstract("a:b:c".to_string()), v);
    assert_eq!("localabstract:a:b:c", v.format());
    let v = LocalAbstract::parse("localabstract:").unwrap();
    assert_eq!(LocalAbstract(String::new()), v);
    assert!(LocalAbstract::parse("localabstract").is_err());
}
