//! The address family types of the device-bridge wire protocol and the closed
//! union over them.
//!
//! Every family writes `tag:remainder` and reads only its own tag; the union
//! tries each member family in turn and keeps the first success.

use vstd::prelude::*;

use crate::error::AdbError;
use crate::text::dec_ok;
use crate::text::dec_val;
use crate::text::dec_digits_of;
use crate::text::lemma_dec_digits_of;
use crate::text::split_once_at;
use crate::text::lemma_split_once_at;
use crate::text::lemma_split_once_at_is;
use crate::text::lemma_strip_tag_of;
use crate::text::strip_tag;
use crate::text::strip_tag_exec;
use crate::text::parse_dec_range;
use crate::text::find_in_range;
use crate::text::to_chars;
use crate::text::append_dec_u32;
use crate::ip::IpAddr;
use crate::ip::Ipv4Addr;
use crate::ip::Ipv6Addr;
use crate::ip::ipv4_text;
use crate::ip::ipv6_text;
use crate::ip::ipv6_from_groups;
use crate::ip::parse_ipv4;
use crate::ip::parse_ipv6;
use crate::ip::parse_ipv4_range;
use crate::ip::parse_ipv6_range;
use crate::ip::append_ipv4;
use crate::ip::append_ipv6;
use crate::ip::lemma_ipv4_round_trip;
use crate::ip::lemma_ipv6_round_trip;
use crate::ip::lemma_ipv4_text_chars;
use crate::ip::lemma_ipv6_text_chars;
use crate::text::all_dec_digits;
use crate::text::is_dec_digit;
use crate::text::is_hex_digit;

verus! {

/// A marker for adb socket families.
///
/// A type carrying this marker guarantees that it can be parsed from a valid
/// adb socket family string (`parse`) and rendered as a valid argument for an
/// adb command (`format`).
pub trait AdbSocketFamily {

}

/// Parses `tag:<remainder>`, handing the remainder back verbatim.
fn parse_tagged_rest(s: &str, tag: &str) -> (r: Option<String>)
    ensures
        match r {
            Some(name) => strip_tag(s@, tag@) == Some(name@),
            None => strip_tag(s@, tag@) is None,
        },
{
    let cs = to_chars(s);
    match strip_tag_exec(&cs, tag) {
        Some(k) => {
            let name = s.substring_char(k, cs.len()).to_owned();
            proof {
                assert(cs@.skip(k as int) =~= s@.subrange(k as int, cs@.len() as int));
            }
            Some(name)
        },
        None => None,
    }
}

/// A Unix domain socket in the abstract namespace.
///
/// # Syntax
///
/// `localabstract:<unix domain socket name>`
#[derive(Clone, PartialEq, Eq, PartialOrd, Ord, Hash, Debug)]
pub struct LocalAbstract(pub String);

impl AdbSocketFamily for LocalAbstract {

}

impl LocalAbstract {
    /// The canonical wire text of the value.
    pub open spec fn spec_format(self) -> Seq<char> {
        ("localabstract:")@ + self.0@
    }

    /// The name that a well-formed `localabstract:` text carries: the text
    /// after the tag, verbatim, the empty text included.
    pub open spec fn spec_parse(s: Seq<char>) -> Option<Seq<char>> {
        strip_tag(s, ("localabstract")@)
    }

    /// Renders the canonical wire string.
    pub fn format(&self) -> (r: String)
        ensures
            r@ == self.spec_format(),
    {
        let mut r = String::new();
        r.append("localabstract:");
        r.append(self.0.as_str());
        proof {
            assert(r@ =~= self.spec_format());
        }
        r
    }

    /// Parses the wire string; fails exactly when the tag prefix is absent.
    pub fn parse(s: &str) -> (r: Result<LocalAbstract, AdbError>)
        ensures
            r is Ok <==> Self::spec_parse(s@) is Some,
            match r {
                Ok(v) => Self::spec_parse(s@) == Some(v.0@),
                Err(e) => e.is_parse(s@, ("&str")@, ("LocalAbstract")@),
            },
    {
        match parse_tagged_rest(s, "localabstract") {
            Some(name) => Ok(LocalAbstract(name)),
            None => Err(AdbError::parse_failure(s.to_owned(), "&str", "LocalAbstract")),
        }
    }

    /// Parsing reads the canonical text of any value back to the same name.
    pub proof fn round_trip(v: LocalAbstract)
        ensures
            LocalAbstract::spec_parse(v.spec_format()) == Some(v.0@),
    {
        reveal_strlit("localabstract:");
        reveal_strlit("localabstract");
        assert(("localabstract:")@ =~= ("localabstract")@ + seq![':']);
        lemma_strip_tag_of(("localabstract")@, v.0@);
        assert(v.spec_format() =~= ("localabstract")@ + seq![':'] + v.0@);
    }
}

/// A Unix domain socket in the reserved namespace.
///
/// # Syntax
///
/// `localreserved:<unix domain socket name>`
#[derive(Clone, PartialEq, Eq, PartialOrd, Ord, Hash, Debug)]
pub struct LocalReserved(pub String);

impl AdbSocketFamily for LocalReserved {

}

impl LocalReserved {
    /// The canonical wire text of the value.
    pub open spec fn spec_format(self) -> Seq<char> {
        ("localreserved:")@ + self.0@
    }

    /// The name that a well-formed `localreserved:` text carries.
    pub open spec fn spec_parse(s: Seq<char>) -> Option<Seq<char>> {
        strip_tag(s, ("localreserved")@)
    }

    /// Renders the canonical wire string.
    pub fn format(&self) -> (r: String)
        ensures
            r@ == self.spec_format(),
    {
        let mut r = String::new();
        r.append("localreserved:");
        r.append(self.0.as_str());
        proof {
            assert(r@ =~= self.spec_format());
        }
        r
    }

    /// Parses the wire string; fails exactly when the tag prefix is absent.
    pub fn parse(s: &str) -> (r: Result<LocalReserved, AdbError>)
        ensures
            r is Ok <==> Self::spec_parse(s@) is Some,
            match r {
                Ok(v) => Self::spec_parse(s@) == Some(v.0@),
                Err(e) => e.is_parse(s@, ("&str")@, ("LocalReserved")@),
            },
    {
        match parse_tagged_rest(s, "localreserved") {
            Some(name) => Ok(LocalReserved(name)),
            None => Err(AdbError::parse_failure(s.to_owned(), "&str", "LocalReserved")),
        }
    }

    /// Parsing reads the canonical text of any value back to the same name.
    pub proof fn round_trip(v: LocalReserved)
        ensures
            LocalReserved::spec_parse(v.spec_format()) == Some(v.0@),
    {
        reveal_strlit("localreserved:");
        reveal_strlit("localreserved");
        assert(("localreserved:")@ =~= ("localreserved")@ + seq![':']);
        lemma_strip_tag_of(("localreserved")@, v.0@);
        assert(v.spec_format() =~= ("localreserved")@ + seq![':'] + v.0@);
    }
}

/// A Unix domain socket in the file system, its path held in the display form.
///
/// # Syntax
///
/// `localfilesystem:<unix domain socket path>`
#[derive(Clone, PartialEq, Eq, PartialOrd, Ord, Hash, Debug)]
pub struct LocalFileSystem(pub String);

impl AdbSocketFamily for LocalFileSystem {

}

impl LocalFileSystem {
    /// The canonical wire text of the value.
    pub open spec fn spec_format(self) -> Seq<char> {
        ("localfilesystem:")@ + self.0@
    }

    /// The path that a well-formed `localfilesystem:` text carries.
    pub open spec fn spec_parse(s: Seq<char>) -> Option<Seq<char>> {
        strip_tag(s, ("localfilesystem")@)
    }

    /// Renders the canonical wire string.
    pub fn format(&self) -> (r: String)
        ensures
            r@ == self.spec_format(),
    {
        let mut r = String::new();
        r.append("localfilesystem:");
        r.append(self.0.as_str());
        proof {
            assert(r@ =~= self.spec_format());
        }
        r
    }

    /// Parses the wire string; fails exactly when the tag prefix is absent.
    pub fn parse(s: &str) -> (r: Result<LocalFileSystem, AdbError>)
        ensures
            r is Ok <==> Self::spec_parse(s@) is Some,
            match r {
                Ok(v) => Self::spec_parse(s@) == Some(v.0@),
                Err(e) => e.is_parse(s@, ("&str")@, ("LocalFileSystem")@),
            },
    {
        match parse_tagged_rest(s, "localfilesystem") {
            Some(name) => Ok(LocalFileSystem(name)),
            None => Err(AdbError::parse_failure(s.to_owned(), "&str", "LocalFileSystem")),
        }
    }

    /// Parsing reads the canonical text of any value back to the same path.
    pub proof fn round_trip(v: LocalFileSystem)
        ensures
            LocalFileSystem::spec_parse(v.spec_format()) == Some(v.0@),
    {
        reveal_strlit("localfilesystem:");
        reveal_strlit("localfilesystem");
        assert(("localfilesystem:")@ =~= ("localfilesystem")@ + seq![':']);
        lemma_strip_tag_of(("localfilesystem")@, v.0@);
        assert(v.spec_format() =~= ("localfilesystem")@ + seq![':'] + v.0@);
    }
}

/// A character device, its path held in the display form.
///
/// # Syntax
///
/// `dev:<character device name>`
#[derive(Clone, PartialEq, Eq, PartialOrd, Ord, Hash, Debug)]
pub struct Dev(pub String);

impl AdbSocketFamily for Dev {

}

impl Dev {
    /// The canonical wire text of the value.
    pub open spec fn spec_format(self) -> Seq<char> {
        ("dev:")@ + self.0@
    }

    /// The path that a well-formed `dev:` text carries.
    pub open spec fn spec_parse(s: Seq<char>) -> Option<Seq<char>> {
        strip_tag(s, ("dev")@)
    }

    /// Renders the canonical wire string.
    pub fn format(&self) -> (r: String)
        ensures
            r@ == self.spec_format(),
    {
        let mut r = String::new();
        r.append("dev:");
        r.append(self.0.as_str());
        proof {
            assert(r@ =~= self.spec_format());
        }
        r
    }

    /// Parses the wire string; fails exactly when the tag prefix is absent.
    pub fn parse(s: &str) -> (r: Result<Dev, AdbError>)
        ensures
            r is Ok <==> Self::spec_parse(s@) is Some,
            match r {
                Ok(v) => Self::spec_parse(s@) == Some(v.0@),
                Err(e) => e.is_parse(s@, ("&str")@, ("Dev")@),
            },
    {
        match parse_tagged_rest(s, "dev") {
            Some(name) => Ok(Dev(name)),
            None => Err(AdbError::parse_failure(s.to_owned(), "&str", "Dev")),
        }
    }

    /// Parsing reads the canonical text of any value back to the same path.
    pub proof fn round_trip(v: Dev)
        ensures
            Dev::spec_parse(v.spec_format()) == Some(v.0@),
    {
        reveal_strlit("dev:");
        reveal_strlit("dev");
        assert(("dev:")@ =~= ("dev")@ + seq![':']);
        lemma_strip_tag_of(("dev")@, v.0@);
        assert(v.spec_format() =~= ("dev")@ + seq![':'] + v.0@);
    }
}

/// A character device opened in raw mode, its path held in the display form.
/// It is a family of its own and deliberately not a member of the address
/// union.
///
/// # Syntax
///
/// `dev-raw:<character device name>`
#[derive(Clone, PartialEq, Eq, PartialOrd, Ord, Hash, Debug)]
pub struct DevRaw(pub String);

impl AdbSocketFamily for DevRaw {

}

impl DevRaw {
    /// The canonical wire text of the value.
    pub open spec fn spec_format(self) -> Seq<char> {
        ("dev-raw:")@ + self.0@
    }

    /// The path that a well-formed `dev-raw:` text carries.
    pub open spec fn spec_parse(s: Seq<char>) -> Option<Seq<char>> {
        strip_tag(s, ("dev-raw")@)
    }

    /// Renders the canonical wire string.
    pub fn format(&self) -> (r: String)
        ensures
            r@ == self.spec_format(),
    {
        let mut r = String::new();
        r.append("dev-raw:");
        r.append(self.0.as_str());
        proof {
            assert(r@ =~= self.spec_format());
        }
        r
    }

    /// Parses the wire string; fails exactly when the tag prefix is absent.
    pub fn parse(s: &str) -> (r: Result<DevRaw, AdbError>)
        ensures
            r is Ok <==> Self::spec_parse(s@) is Some,
            match r {
                Ok(v) => Self::spec_parse(s@) == Some(v.0@),
                Err(e) => e.is_parse(s@, ("&str")@, ("DevRaw")@),
            },
    {
        match parse_tagged_rest(s, "dev-raw") {
            Some(name) => Ok(DevRaw(name)),
            None => Err(AdbError::parse_failure(s.to_owned(), "&str", "DevRaw")),
        }
    }

    /// Parsing reads the canonical text of any value back to the same path.
    pub proof fn round_trip(v: DevRaw)
        ensures
            DevRaw::spec_parse(v.spec_format()) == Some(v.0@),
    {
        reveal_strlit("dev-raw:");
        reveal_strlit("dev-raw");
        assert(("dev-raw:")@ =~= ("dev-raw")@ + seq![':']);
        lemma_strip_tag_of(("dev-raw")@, v.0@);
        assert(v.spec_format() =~= ("dev-raw")@ + seq![':'] + v.0@);
    }
}

/// A Java Debug Wire Protocol process.
///
/// # Syntax
///
/// `jdwp:<process pid>`
#[derive(Copy, Clone, PartialEq, Eq, PartialOrd, Ord, Hash, Debug)]
pub struct Jdwp(pub u32);

impl AdbSocketFamily for Jdwp {

}

impl Jdwp {
    /// The canonical wire text of the value.
    pub open spec fn spec_format(self) -> Seq<char> {
        ("jdwp:")@ + dec_digits_of(self.0 as int)
    }

    /// The pid that a well-formed `jdwp:` text carries: an unsigned decimal
    /// numeral that fits 32 bits, with no sign.
    pub open spec fn spec_parse(s: Seq<char>) -> Option<u32> {
        match strip_tag(s, ("jdwp")@) {
            Some(rest) => if dec_ok(rest, u32::MAX as int) {
                Some(dec_val(rest) as u32)
            } else {
                None
            },
            None => None,
        }
    }

    /// Renders the canonical wire string.
    pub fn format(&self) -> (r: String)
        ensures
            r@ == self.spec_format(),
    {
        let mut r = String::new();
        r.append("jdwp:");
        append_dec_u32(&mut r, self.0);
        proof {
            assert(r@ =~= self.spec_format());
        }
        r
    }

    /// Parses the wire string. Fails exactly when the tag prefix is absent or
    /// the remainder is not a decimal numeral within the 32-bit range.
    pub fn parse(s: &str) -> (r: Result<Jdwp, AdbError>)
        ensures
            r is Ok <==> Self::spec_parse(s@) is Some,
            match r {
                Ok(v) => Self::spec_parse(s@) == Some(v.0),
                Err(e) => match strip_tag(s@, ("jdwp")@) {
                    Some(rest) => e.is_parse(rest, ("&str")@, ("u32")@),
                    None => e.is_parse(s@, ("&str")@, ("Jdwp")@),
                },
            },
    {
        let cs = to_chars(s);
        let n = cs.len();
        match strip_tag_exec(&cs, "jdwp") {
            Some(k) => {
                proof {
                    assert(cs@.skip(k as int) =~= cs@.subrange(k as int, n as int));
                }
                match parse_dec_range(&cs, k, n, u32::MAX) {
                    Some(v) => Ok(Jdwp(v)),
                    None => {
                        let rest = s.substring_char(k, n).to_owned();
                        Err(AdbError::parse_failure(rest, "&str", "u32"))
                    },
                }
            },
            None => Err(AdbError::parse_failure(s.to_owned(), "&str", "Jdwp")),
        }
    }

    /// Parsing reads the canonical text of any value back to the same value.
    pub proof fn round_trip(v: Jdwp)
        ensures
            Jdwp::spec_parse(v.spec_format()) == Some(v.0),
    {
        reveal_strlit("jdwp:");
        reveal_strlit("jdwp");
        let ds = dec_digits_of(v.0 as int);
        lemma_dec_digits_of(v.0 as int);
        assert(("jdwp:")@ =~= ("jdwp")@ + seq![':']);
        lemma_strip_tag_of(("jdwp")@, ds);
        assert(v.spec_format() =~= ("jdwp")@ + seq![':'] + ds);
    }
}

/// A file descriptor for a socket.
///
/// # Syntax
///
/// `acceptfd:<fd>`
#[derive(Copy, Clone, PartialEq, Eq, PartialOrd, Ord, Hash, Debug)]
pub struct AcceptFd(pub u32);

impl AdbSocketFamily for AcceptFd {

}

impl AcceptFd {
    /// The canonical wire text of the value.
    pub open spec fn spec_format(self) -> Seq<char> {
        ("acceptfd:")@ + dec_digits_of(self.0 as int)
    }

    /// The descriptor that a well-formed `acceptfd:` text carries.
    pub open spec fn spec_parse(s: Seq<char>) -> Option<u32> {
        match strip_tag(s, ("acceptfd")@) {
            Some(rest) => if dec_ok(rest, u32::MAX as int) {
                Some(dec_val(rest) as u32)
            } else {
                None
            },
            None => None,
        }
    }

    /// Renders the canonical wire string.
    pub fn format(&self) -> (r: String)
        ensures
            r@ == self.spec_format(),
    {
        let mut r = String::new();
        r.append("acceptfd:");
        append_dec_u32(&mut r, self.0);
        proof {
            assert(r@ =~= self.spec_format());
        }
        r
    }

    /// Parses the wire string. Fails exactly when the tag prefix is absent or
    /// the remainder is not a decimal numeral within the 32-bit range.
    pub fn parse(s: &str) -> (r: Result<AcceptFd, AdbError>)
        ensures
            r is Ok <==> Self::spec_parse(s@) is Some,
            match r {
                Ok(v) => Self::spec_parse(s@) == Some(v.0),
                Err(e) => match strip_tag(s@, ("acceptfd")@) {
                    Some(rest) => e.is_parse(rest, ("&str")@, ("u32")@),
                    None => e.is_parse(s@, ("&str")@, ("AcceptFd")@),
                },
            },
    {
        let cs = to_chars(s);
        let n = cs.len();
        match strip_tag_exec(&cs, "acceptfd") {
            Some(k) => {
                proof {
                    assert(cs@.skip(k as int) =~= cs@.subrange(k as int, n as int));
                }
                match parse_dec_range(&cs, k, n, u32::MAX) {
                    Some(v) => Ok(AcceptFd(v)),
                    None => {
                        let rest = s.substring_char(k, n).to_owned();
                        Err(AdbError::parse_failure(rest, "&str", "u32"))
                    },
                }
            },
            None => Err(AdbError::parse_failure(s.to_owned(), "&str", "AcceptFd")),
        }
    }

    /// Parsing reads the canonical text of any value back to the same value.
    pub proof fn round_trip(v: AcceptFd)
        ensures
            AcceptFd::spec_parse(v.spec_format()) == Some(v.0),
    {
        reveal_strlit("acceptfd:");
        reveal_strlit("acceptfd");
        let ds = dec_digits_of(v.0 as int);
        lemma_dec_digits_of(v.0 as int);
        assert(("acceptfd:")@ =~= ("acceptfd")@ + seq![':']);
        lemma_strip_tag_of(("acceptfd")@, ds);
        assert(v.spec_format() =~= ("acceptfd")@ + seq![':'] + ds);
    }
}

/// A VSOCK address.
///
/// # Syntax
///
/// `vsock:<cid>:<port>`
#[derive(Copy, Clone, PartialEq, Eq, PartialOrd, Ord, Hash, Debug)]
pub struct Vsock {
    pub cid: u32,
    pub port: u32,
}

impl AdbSocketFamily for Vsock {

}

impl Vsock {
    /// The canonical wire text of the value.
    pub open spec fn spec_format(self) -> Seq<char> {
        ("vsock:")@ + dec_digits_of(self.cid as int) + seq![':'] + dec_digits_of(self.port as int)
    }

    /// The cid and port that a well-formed `vsock:` text carries: the
    /// remainder split once at its first colon, both sides unsigned 32-bit
    /// decimal numerals; a missing separator is a failure.
    pub open spec fn spec_parse(s: Seq<char>) -> Option<Vsock> {
        match strip_tag(s, ("vsock")@) {
            Some(rest) => match split_once_at(rest, ':') {
                Some(p) => if dec_ok(p.0, u32::MAX as int) && dec_ok(p.1, u32::MAX as int) {
                    Some(Vsock { cid: dec_val(p.0) as u32, port: dec_val(p.1) as u32 })
                } else {
                    None
                },
                None => None,
            },
            None => None,
        }
    }

    /// Renders the canonical wire string.
    pub fn format(&self) -> (r: String)
        ensures
            r@ == self.spec_format(),
    {
        let mut r = String::new();
        r.append("vsock:");
        append_dec_u32(&mut r, self.cid);
        r.append(":");
        append_dec_u32(&mut r, self.port);
        proof {
            reveal_strlit(":");
            assert((":")@ =~= seq![':']);
            assert(r@ =~= self.spec_format());
        }
        r
    }

    /// Parses the wire string. Fails exactly when the tag prefix is absent,
    /// the remainder has no colon, or either side is not a decimal numeral
    /// within the 32-bit range.
    pub fn parse(s: &str) -> (r: Result<Vsock, AdbError>)
        ensures
            r is Ok <==> Self::spec_parse(s@) is Some,
            match r {
                Ok(v) => Self::spec_parse(s@) == Some(v),
                Err(e) => match strip_tag(s@, ("vsock")@) {
                    Some(rest) => match split_once_at(rest, ':') {
                        Some(p) => if !dec_ok(p.0, u32::MAX as int) {
                            e.is_parse(p.0, ("&str")@, ("u32")@)
                        } else {
                            e.is_parse(p.1, ("&str")@, ("u32")@)
                        },
                        None => e.is_parse(rest, ("&str")@, ("u32")@),
                    },
                    None => e.is_parse(s@, ("&str")@, ("Vsock")@),
                },
            },
    {
        let cs = to_chars(s);
        let n = cs.len();
        match strip_tag_exec(&cs, "vsock") {
            Some(k) => {
                let ghost rest = cs@.subrange(k as int, n as int);
                proof {
                    assert(cs@.skip(k as int) =~= rest);
                }
                match find_in_range(&cs, k, n, ':') {
                    Some(m) => {
                        let ghost left = cs@.subrange(k as int, m as int);
                        let ghost right = cs@.subrange(m + 1, n as int);
                        proof {
                            assert(!left.contains(':')) by {
                                assert(forall|j: int|
                                    0 <= j < left.len() ==> left[j] == cs@[k + j]);
                                assert(forall|j: int| 0 <= j < left.len() ==> left[j] != ':');
                                assert(left.contains(':') <==> exists|j: int|
                                    0 <= j < left.len() && left[j] == ':');
                            }
                            assert(rest =~= left + seq![':'] + right);
                            lemma_split_once_at_is(left, right, ':');
                            assert(split_once_at(rest, ':') == Some((left, right)));
                        }
                        let cid = match parse_dec_range(&cs, k, m, u32::MAX) {
                            Some(v) => v,
                            None => {
                                let t = s.substring_char(k, m).to_owned();
                                return Err(AdbError::parse_failure(t, "&str", "u32"));
                            },
                        };
                        match parse_dec_range(&cs, m + 1, n, u32::MAX) {
                            Some(p) => Ok(Vsock { cid, port: p }),
                            None => {
                                let t = s.substring_char(m + 1, n).to_owned();
                                Err(AdbError::parse_failure(t, "&str", "u32"))
                            },
                        }
                    },
                    None => {
                        proof {
                            lemma_split_once_at(rest, ':');
                            match split_once_at(rest, ':') {
                                Some(p) => {
                                    assert(rest[p.0.len() as int] == ':');
                                    assert(rest[p.0.len() as int] == cs@[k + p.0.len()]);
                                    assert(false);
                                },
                                None => {},
                            }
                        }
                        let t = s.substring_char(k, n).to_owned();
                        Err(AdbError::parse_failure(t, "&str", "u32"))
                    },
                }
            },
            None => Err(AdbError::parse_failure(s.to_owned(), "&str", "Vsock")),
        }
    }

    /// Parsing reads the canonical text of any value back to the same value.
    pub proof fn round_trip(v: Vsock)
        ensures
            Vsock::spec_parse(v.spec_format()) == Some(v),
    {
        reveal_strlit("vsock:");
        reveal_strlit("vsock");
        let dc = dec_digits_of(v.cid as int);
        let dp = dec_digits_of(v.port as int);
        lemma_dec_digits_of(v.cid as int);
        lemma_dec_digits_of(v.port as int);
        let rest = dc + seq![':'] + dp;
        assert(("vsock:")@ =~= ("vsock")@ + seq![':']);
        lemma_strip_tag_of(("vsock")@, rest);
        assert(v.spec_format() =~= ("vsock")@ + seq![':'] + rest);
        assert(!dc.contains(':')) by {
            assert forall|j: int| 0 <= j < dc.len() implies dc[j] != ':' by {
                crate::text::lemma_dec_digit_not_sep(dc[j]);
            }
            assert(dc.contains(':') <==> exists|j: int| 0 <= j < dc.len() && dc[j] == ':');
        }
        lemma_split_once_at_is(dc, dp, ':');
    }
}


/// Reads a full socket address: `a.b.c.d:port`, or `[v6]:port` with the IPv6
/// address in one pair of square brackets.
pub open spec fn parse_sock_addr(s: Seq<char>) -> Option<(IpAddr, u16)> {
    if s.len() > 0 && s[0] == '[' {
        match split_once_at(s.skip(1), ']') {
            Some(p) => if p.1.len() >= 1 && p.1[0] == ':' {
                match parse_ipv6(p.0) {
                    Some(g) => if dec_ok(p.1.skip(1), 0xffff) {
                        Some((IpAddr::V6(ipv6_from_groups(g)), dec_val(p.1.skip(1)) as u16))
                    } else {
                        None
                    },
                    None => None,
                }
            } else {
                None
            },
            None => None,
        }
    } else {
        match split_once_at(s, ':') {
            Some(p) => match parse_ipv4(p.0) {
                Some(v4) => if dec_ok(p.1, 0xffff) {
                    Some((IpAddr::V4(v4), dec_val(p.1) as u16))
                } else {
                    None
                },
                None => None,
            },
            None => None,
        }
    }
}

/// Reads `cs[lo..hi]` as a full socket address.
fn parse_sock_addr_range(cs: &Vec<char>, lo: usize, hi: usize) -> (r: Option<(IpAddr, u16)>)
    requires
        lo <= hi <= cs@.len(),
    ensures
        r == parse_sock_addr(cs@.subrange(lo as int, hi as int)),
{
    let ghost s = cs@.subrange(lo as int, hi as int);
    if lo < hi && cs[lo] == '[' {
        proof {
            assert(s[0] == cs@[lo as int]);
        }
        match find_in_range(cs, lo + 1, hi, ']') {
            Some(j) => {
                let ghost a = cs@.subrange(lo + 1, j as int);
                let ghost b = cs@.subrange(j + 1, hi as int);
                proof {
                    assert(!a.contains(']')) by {
                        assert(forall|m: int| 0 <= m < a.len() ==> a[m] == cs@[lo + 1 + m]);
                        assert(forall|m: int| 0 <= m < a.len() ==> a[m] != ']');
                        assert(a.contains(']') <==> exists|m: int|
                            0 <= m < a.len() && a[m] == ']');
                    }
                    assert(s.skip(1) =~= a + seq![']'] + b);
                    lemma_split_once_at_is(a, b, ']');
                    assert(split_once_at(s.skip(1), ']') == Some((a, b)));
                }
                if j + 1 < hi && cs[j + 1] == ':' {
                    proof {
                        assert(b[0] == cs@[j + 1]);
                        assert(b.skip(1) =~= cs@.subrange(j + 2, hi as int));
                    }
                    match parse_ipv6_range(cs, lo + 1, j) {
                        Some(v6) => match parse_dec_range(cs, j + 2, hi, 0xffff) {
                            Some(p) => {
                                proof {
                                    assert(ipv6_from_groups(v6.seg_seq()) == v6);
                                }
                                Some((IpAddr::V6(v6), p as u16))
                            },
                            None => None,
                        },
                        None => None,
                    }
                } else {
                    proof {
                        if b.len() >= 1 {
                            assert(b[0] == cs@[j + 1]);
                        }
                    }
                    None
                }
            },
            None => {
                proof {
                    lemma_split_once_at(s.skip(1), ']');
                    match split_once_at(s.skip(1), ']') {
                        Some(p) => {
                            assert(s.skip(1)[p.0.len() as int] == ']');
                            assert(s.skip(1)[p.0.len() as int] == cs@[lo + 1 + p.0.len()]);
                            assert(false);
                        },
                        None => {},
                    }
                }
                None
            },
        }
    } else {
        match find_in_range(cs, lo, hi, ':') {
            Some(m) => {
                let ghost a = cs@.subrange(lo as int, m as int);
                let ghost b = cs@.subrange(m + 1, hi as int);
                proof {
                    assert(!a.contains(':')) by {
                        assert(forall|q: int| 0 <= q < a.len() ==> a[q] == cs@[lo + q]);
                        assert(forall|q: int| 0 <= q < a.len() ==> a[q] != ':');
                        assert(a.contains(':') <==> exists|q: int|
                            0 <= q < a.len() && a[q] == ':');
                    }
                    assert(s =~= a + seq![':'] + b);
                    lemma_split_once_at_is(a, b, ':');
                    assert(split_once_at(s, ':') == Some((a, b)));
                }
                match parse_ipv4_range(cs, lo, m) {
                    Some(v4) => match parse_dec_range(cs, m + 1, hi, 0xffff) {
                        Some(p) => Some((IpAddr::V4(v4), p as u16)),
                        None => None,
                    },
                    None => None,
                }
            },
            None => {
                proof {
                    lemma_split_once_at(s, ':');
                    match split_once_at(s, ':') {
                        Some(p) => {
                            assert(s[p.0.len() as int] == ':');
                            assert(s[p.0.len() as int] == cs@[lo + p.0.len()]);
                            assert(false);
                        },
                        None => {},
                    }
                }
                None
            },
        }
    }
}

/// A TCP socket. Both IPv4 and IPv6 addresses are supported.
///
/// # Syntax
///
/// `tcp:[host:[port]]`
///
/// - `host`: Optional IP address. An IPv6 address is enclosed in square
///   brackets.
/// - `port`: Optional port number.
///
/// # Note
///
/// Semantically, `ip` and `port` should not both be `None`. A value with both
/// fields empty is the invalid/empty sentinel: `format` renders it as the
/// empty string, and no input parses to it.
#[derive(Copy, Clone, PartialEq, Eq, PartialOrd, Ord, Hash, Debug)]
pub struct Tcp {
    pub ip: Option<IpAddr>,
    pub port: Option<u16>,
}

impl AdbSocketFamily for Tcp {

}

impl Tcp {
    /// A socket with the given IP address and port number.
    pub fn new(host: IpAddr, port: u16) -> (r: Self)
        ensures
            r == (Tcp { ip: Some(host), port: Some(port) }),
    {
        Tcp { ip: Some(host), port: Some(port) }
    }

    /// A socket with the given IP address and no port.
    pub fn from_ip(host: IpAddr) -> (r: Self)
        ensures
            r == (Tcp { ip: Some(host), port: None }),
    {
        Tcp { ip: Some(host), port: None }
    }

    /// A socket with the given IPv4 address and no port.
    pub fn from_ipv4(host: Ipv4Addr) -> (r: Self)
        ensures
            r == (Tcp { ip: Some(IpAddr::V4(host)), port: None }),
    {
        Tcp { ip: Some(IpAddr::V4(host)), port: None }
    }

    /// A socket with the given IPv6 address and no port.
    pub fn from_ipv6(host: Ipv6Addr) -> (r: Self)
        ensures
            r == (Tcp { ip: Some(IpAddr::V6(host)), port: None }),
    {
        Tcp { ip: Some(IpAddr::V6(host)), port: None }
    }

    /// A socket with the given port number and no host.
    pub fn from_port(port: u16) -> (r: Self)
        ensures
            r == (Tcp { ip: None, port: Some(port) }),
    {
        Tcp { ip: None, port: Some(port) }
    }

    /// The canonical wire text of the value; the empty-sentinel value renders
    /// as the empty string.
    pub open spec fn spec_format(self) -> Seq<char> {
        match (self.ip, self.port) {
            (Some(IpAddr::V4(v4)), Some(p)) => ("tcp:")@ + ipv4_text(v4) + seq![':']
                + dec_digits_of(p as int),
            (Some(IpAddr::V6(v6)), Some(p)) => ("tcp:")@ + seq!['['] + ipv6_text(v6.seg_seq())
                + seq![']'] + seq![':'] + dec_digits_of(p as int),
            (Some(IpAddr::V4(v4)), None) => ("tcp:")@ + ipv4_text(v4),
            (Some(IpAddr::V6(v6)), None) => ("tcp:")@ + seq!['['] + ipv6_text(v6.seg_seq())
                + seq![']'],
            (None, Some(p)) => ("tcp:")@ + dec_digits_of(p as int),
            (None, None) => Seq::<char>::empty(),
        }
    }

    /// The value that a well-formed `tcp:` text carries, tried in this strict
    /// order against the text after the tag: a bare port; a full socket
    /// address; a bare IPv4 address; an IPv6 address in one pair of square
    /// brackets. An empty remainder carries nothing, and a bare IPv6 address
    /// without brackets is rejected.
    pub open spec fn spec_parse(s: Seq<char>) -> Option<Tcp> {
        match strip_tag(s, ("tcp")@) {
            None => None,
            Some(rest) => if rest.len() == 0 {
                None
            } else if dec_ok(rest, 0xffff) {
                Some(Tcp { ip: None, port: Some(dec_val(rest) as u16) })
            } else {
                match parse_sock_addr(rest) {
                    Some(ap) => Some(Tcp { ip: Some(ap.0), port: Some(ap.1) }),
                    None => match parse_ipv4(rest) {
                        Some(v4) => Some(Tcp { ip: Some(IpAddr::V4(v4)), port: None }),
                        None => if rest.len() >= 2 && rest[0] == '[' && rest[rest.len() - 1]
                            == ']' {
                            match parse_ipv6(rest.subrange(1, rest.len() - 1)) {
                                Some(g) => Some(
                                    Tcp { ip: Some(IpAddr::V6(ipv6_from_groups(g))), port: None },
                                ),
                                None => None,
                            }
                        } else {
                            None
                        },
                    },
                }
            },
        }
    }

    /// Renders the canonical wire string; the empty-sentinel value renders as
    /// the empty string.
    pub fn format(&self) -> (r: String)
        ensures
            r@ == self.spec_format(),
    {
        let mut r = String::new();
        match (self.ip, self.port) {
            (Some(IpAddr::V4(v4)), Some(p)) => {
                r.append("tcp:");
                append_ipv4(&mut r, &v4);
                proof {
                    reveal_strlit(":");
                    assert((":")@ =~= seq![':']);
                }
                r.append(":");
                append_dec_u32(&mut r, p as u32);
            },
            (Some(IpAddr::V6(v6)), Some(p)) => {
                r.append("tcp:[");
                append_ipv6(&mut r, &v6);
                proof {
                    reveal_strlit("tcp:[");
                    reveal_strlit("tcp:");
                    reveal_strlit("]:");
                    assert(("tcp:[")@ =~= ("tcp:")@ + seq!['[']);
                    assert(("]:")@ =~= seq![']'] + seq![':']);
                }
                r.append("]:");
                append_dec_u32(&mut r, p as u32);
            },
            (Some(IpAddr::V4(v4)), None) => {
                r.append("tcp:");
                append_ipv4(&mut r, &v4);
            },
            (Some(IpAddr::V6(v6)), None) => {
                r.append("tcp:[");
                append_ipv6(&mut r, &v6);
                proof {
                    reveal_strlit("tcp:[");
                    reveal_strlit("tcp:");
                    reveal_strlit("]");
                    assert(("tcp:[")@ =~= ("tcp:")@ + seq!['[']);
                    assert(("]")@ =~= seq![']']);
                }
                r.append("]");
            },
            (None, Some(p)) => {
                r.append("tcp:");
                append_dec_u32(&mut r, p as u32);
            },
            (None, None) => {},
        }
        proof {
            assert(r@ =~= self.spec_format());
        }
        r
    }

    /// Parses the wire string. Fails exactly when the tag prefix is absent,
    /// the remainder is empty, or the remainder matches none of the accepted
    /// shapes.
    pub fn parse(s: &str) -> (r: Result<Tcp, AdbError>)
        ensures
            r is Ok <==> Self::spec_parse(s@) is Some,
            match r {
                Ok(v) => Self::spec_parse(s@) == Some(v),
                Err(e) => match strip_tag(s@, ("tcp")@) {
                    None => e.is_parse(s@, ("&str")@, ("Tcp")@),
                    Some(rest) => if rest.len() == 0 {
                        e.is_parse(s@, ("&str")@, ("Tcp")@)
                    } else if rest.len() >= 2 && rest[0] == '[' && rest[rest.len() - 1] == ']' {
                        e.is_parse(rest.subrange(1, rest.len() - 1), ("&str")@, ("Ipv6Addr")@)
                    } else {
                        e.is_parse(rest, ("&str")@, ("Ipv6Addr")@)
                    },
                },
            },
    {
        let cs = to_chars(s);
        let n = cs.len();
        let k = match strip_tag_exec(&cs, "tcp") {
            Some(k) => k,
            None => {
                return Err(AdbError::parse_failure(s.to_owned(), "&str", "Tcp"));
            },
        };
        let ghost rest = cs@.subrange(k as int, n as int);
        proof {
            assert(cs@.skip(k as int) =~= rest);
        }
        if k == n {
            return Err(AdbError::parse_failure(s.to_owned(), "&str", "Tcp"));
        }
        match parse_dec_range(&cs, k, n, 0xffff) {
            Some(p) => {
                return Ok(Tcp { ip: None, port: Some(p as u16) });
            },
            None => {},
        }
        match parse_sock_addr_range(&cs, k, n) {
            Some(ap) => {
                return Ok(Tcp { ip: Some(ap.0), port: Some(ap.1) });
            },
            None => {},
        }
        match parse_ipv4_range(&cs, k, n) {
            Some(v4) => {
                return Ok(Tcp { ip: Some(IpAddr::V4(v4)), port: None });
            },
            None => {},
        }
        if n - k >= 2 && cs[k] == '[' && cs[n - 1] == ']' {
            proof {
                assert(rest[0] == cs@[k as int]);
                assert(rest[rest.len() - 1] == cs@[n - 1]);
                assert(rest.subrange(1, rest.len() - 1) =~= cs@.subrange(k + 1, n - 1));
            }
            match parse_ipv6_range(&cs, k + 1, n - 1) {
                Some(v6) => {
                    proof {
                        assert(ipv6_from_groups(v6.seg_seq()) == v6);
                    }
                    Ok(Tcp { ip: Some(IpAddr::V6(v6)), port: None })
                },
                None => {
                    let t = s.substring_char(k + 1, n - 1).to_owned();
                    Err(AdbError::parse_failure(t, "&str", "Ipv6Addr"))
                },
            }
        } else {
            proof {
                if rest.len() >= 2 {
                    assert(rest[0] == cs@[k as int]);
                    assert(rest[rest.len() - 1] == cs@[n - 1]);
                }
            }
            let t = s.substring_char(k, n).to_owned();
            Err(AdbError::parse_failure(t, "&str", "Ipv6Addr"))
        }
    }
}


/// The first IPv4 candidate of a resolver result list.
pub open spec fn first_v4(s: Seq<(IpAddr, u16)>) -> Option<(IpAddr, u16)>
    decreases s.len(),
{
    if s.len() == 0 {
        None
    } else if s[0].0 is V4 {
        Some(s[0])
    } else {
        first_v4(s.skip(1))
    }
}

/// The candidate that resolution keeps: the first IPv4 candidate if any is
/// IPv4, else the first candidate of any family.
pub open spec fn pick_resolved(s: Seq<(IpAddr, u16)>) -> Option<(IpAddr, u16)> {
    if s.len() == 0 {
        None
    } else {
        match first_v4(s) {
            Some(p) => Some(p),
            None => Some(s[0]),
        }
    }
}

proof fn lemma_first_v4_at(s: Seq<(IpAddr, u16)>, i: int)
    requires
        0 <= i < s.len(),
        s[i].0 is V4,
        forall|j: int| 0 <= j < i ==> !((#[trigger] s[j]).0 is V4),
    ensures
        first_v4(s) == Some(s[i]),
    decreases i,
{
    if i == 0 {
    } else {
        assert(!(s[0].0 is V4));
        let s1 = s.skip(1);
        assert(forall|j: int| 0 <= j < s1.len() ==> s1[j] == #[trigger] s[j + 1]);
        assert(s1[i - 1] == s[i]);
        assert(forall|j: int| 0 <= j < i - 1 ==> !((#[trigger] s1[j]).0 is V4));
        lemma_first_v4_at(s1, i - 1);
    }
}

proof fn lemma_first_v4_none(s: Seq<(IpAddr, u16)>)
    requires
        forall|j: int| 0 <= j < s.len() ==> !((#[trigger] s[j]).0 is V4),
    ensures
        first_v4(s) == None::<(IpAddr, u16)>,
    decreases s.len(),
{
    if s.len() > 0 {
        let s1 = s.skip(1);
        assert(forall|j: int| 0 <= j < s1.len() ==> s1[j] == #[trigger] s[j + 1]);
        assert(forall|j: int| 0 <= j < s1.len() ==> !((#[trigger] s1[j]).0 is V4));
        lemma_first_v4_none(s1);
    }
}

impl Tcp {
    /// Chooses among name-resolution candidates, each an address and a port:
    /// the first IPv4 candidate when one exists, else the first candidate of
    /// any family; nothing when the resolver returned no candidate.
    pub fn from_resolved(addrs: &Vec<(IpAddr, u16)>) -> (r: Option<Tcp>)
        ensures
            match pick_resolved(addrs@) {
                Some(p) => r == Some(Tcp { ip: Some(p.0), port: Some(p.1) }),
                None => r is None,
            },
            (exists|i: int| 0 <= i < addrs@.len() && (#[trigger] addrs@[i]).0 is V4)
                ==> match r {
                Some(t) => match t.ip {
                    Some(ip) => ip is V4,
                    None => false,
                },
                None => false,
            },
    {
        let n = addrs.len();
        let mut i: usize = 0;
        while i < n
            invariant
                i <= n,
                n == addrs@.len(),
                forall|j: int| 0 <= j < i ==> !((#[trigger] addrs@[j]).0 is V4),
            decreases n - i,
        {
            let a = addrs[i];
            match a.0 {
                IpAddr::V4(_) => {
                    proof {
                        lemma_first_v4_at(addrs@, i as int);
                    }
                    return Some(Tcp { ip: Some(a.0), port: Some(a.1) });
                },
                IpAddr::V6(_) => {},
            }
            i = i + 1;
        }
        proof {
            lemma_first_v4_none(addrs@);
        }
        if n > 0 {
            let a = addrs[0];
            Some(Tcp { ip: Some(a.0), port: Some(a.1) })
        } else {
            None
        }
    }

    /// Parsing reads the canonical text of any non-sentinel value back to the
    /// same value. The sentinel is the one exception: it formats to the empty
    /// string, which no parse accepts.
    pub proof fn round_trip(v: Tcp)
        requires
            v.ip is Some || v.port is Some,
        ensures
            Tcp::spec_parse(v.spec_format()) == Some(v),
    {
        reveal_strlit("tcp:");
        reveal_strlit("tcp");
        assert(("tcp:")@ =~= ("tcp")@ + seq![':']);
        match (v.ip, v.port) {
            (None, Some(p)) => {
                let dp = dec_digits_of(p as int);
                lemma_dec_digits_of(p as int);
                lemma_strip_tag_of(("tcp")@, dp);
                assert(v.spec_format() =~= ("tcp")@ + seq![':'] + dp);
            },
            (Some(IpAddr::V4(v4)), None) => {
                let rest = ipv4_text(v4);
                lemma_strip_tag_of(("tcp")@, rest);
                assert(v.spec_format() =~= ("tcp")@ + seq![':'] + rest);
                lemma_ipv4_text_chars(v4);
                let d0 = dec_digits_of(v4.o0 as int);
                assert(rest[d0.len() as int] == '.');
                assert(!all_dec_digits(rest));
                assert(rest[0] != '[');
                lemma_split_once_at(rest, ':');
                match split_once_at(rest, ':') {
                    Some(pp) => {
                        assert(rest =~= pp.0 + seq![':'] + pp.1);
                        assert(rest[pp.0.len() as int] == ':');
                        assert(false);
                    },
                    None => {},
                }
                lemma_ipv4_round_trip(v4);
            },
            (Some(IpAddr::V4(v4)), Some(p)) => {
                let t4 = ipv4_text(v4);
                let dp = dec_digits_of(p as int);
                lemma_dec_digits_of(p as int);
                let rest = t4 + seq![':'] + dp;
                lemma_strip_tag_of(("tcp")@, rest);
                assert(v.spec_format() =~= ("tcp")@ + seq![':'] + rest);
                lemma_ipv4_text_chars(v4);
                let d0 = dec_digits_of(v4.o0 as int);
                assert(rest[d0.len() as int] == t4[d0.len() as int]);
                assert(rest[d0.len() as int] == '.');
                assert(!all_dec_digits(rest));
                assert(rest[0] == t4[0]);
                assert(rest[0] != '[');
                assert(!t4.contains(':')) by {
                    assert forall|m: int| 0 <= m < t4.len() implies t4[m] != ':' by {
                        if is_dec_digit(t4[m]) {
                            crate::text::lemma_dec_digit_not_sep(t4[m]);
                        }
                    }
                    assert(t4.contains(':') <==> exists|m: int|
                        0 <= m < t4.len() && t4[m] == ':');
                }
                lemma_split_once_at_is(t4, dp, ':');
                lemma_ipv4_round_trip(v4);
            },
            (Some(IpAddr::V6(v6)), None) => {
                let t6 = ipv6_text(v6.seg_seq());
                let rest = seq!['['] + t6 + seq![']'];
                lemma_strip_tag_of(("tcp")@, rest);
                assert(v.spec_format() =~= ("tcp")@ + seq![':'] + rest);
                lemma_ipv6_text_chars(v6.seg_seq());
                assert(rest[0] == '[');
                assert(!all_dec_digits(rest));
                assert(!t6.contains(']')) by {
                    assert forall|m: int| 0 <= m < t6.len() implies t6[m] != ']' by {
                        if is_hex_digit(t6[m]) {
                            crate::text::lemma_hex_digit_not_sep(t6[m]);
                        }
                    }
                    assert(t6.contains(']') <==> exists|m: int|
                        0 <= m < t6.len() && t6[m] == ']');
                }
                assert(rest.skip(1) =~= t6 + seq![']'] + Seq::<char>::empty());
                lemma_split_once_at_is(t6, Seq::<char>::empty(), ']');
                assert(parse_sock_addr(rest) is None);
                assert(!rest.contains('.')) by {
                    assert forall|m: int| 0 <= m < rest.len() implies rest[m] != '.' by {
                        if 1 <= m < 1 + t6.len() {
                            assert(rest[m] == t6[m - 1]);
                            if is_hex_digit(t6[m - 1]) {
                                crate::text::lemma_hex_digit_not_sep(t6[m - 1]);
                            }
                        }
                    }
                    assert(rest.contains('.') <==> exists|m: int|
                        0 <= m < rest.len() && rest[m] == '.');
                }
                crate::text::lemma_split_on_nosep(rest, '.');
                assert(parse_ipv4(rest) is None);
                assert(rest.len() >= 2);
                assert(rest[rest.len() - 1] == ']');
                assert(rest.subrange(1, rest.len() - 1) =~= t6);
                lemma_ipv6_round_trip(v6.seg_seq());
                assert(ipv6_from_groups(v6.seg_seq()) == v6);
            },
            (Some(IpAddr::V6(v6)), Some(p)) => {
                let t6 = ipv6_text(v6.seg_seq());
                let dp = dec_digits_of(p as int);
                lemma_dec_digits_of(p as int);
                let b = seq![':'] + dp;
                let rest = seq!['['] + t6 + seq![']'] + b;
                lemma_strip_tag_of(("tcp")@, rest);
                assert(v.spec_format() =~= ("tcp")@ + seq![':'] + rest);
                lemma_ipv6_text_chars(v6.seg_seq());
                assert(rest[0] == '[');
                assert(!all_dec_digits(rest));
                assert(!t6.contains(']')) by {
                    assert forall|m: int| 0 <= m < t6.len() implies t6[m] != ']' by {
                        if is_hex_digit(t6[m]) {
                            crate::text::lemma_hex_digit_not_sep(t6[m]);
                        }
                    }
                    assert(t6.contains(']') <==> exists|m: int|
                        0 <= m < t6.len() && t6[m] == ']');
                }
                assert(rest.skip(1) =~= t6 + seq![']'] + b);
                lemma_split_once_at_is(t6, b, ']');
                assert(b[0] == ':');
                assert(b.skip(1) =~= dp);
                lemma_ipv6_round_trip(v6.seg_seq());
                assert(ipv6_from_groups(v6.seg_seq()) == v6);
                assert(parse_sock_addr(rest) == Some(
                    (IpAddr::V6(v6), p),
                ));
            },
            (None, None) => {
            },
        }
    }
}


/// Two tags that differ at a position both of them have cannot both stand at
/// the head of one text.
proof fn lemma_tag_mismatch(s: Seq<char>, t1: Seq<char>, t2: Seq<char>, i: int)
    requires
        0 <= i < t1.len(),
        i < t2.len(),
        t1[i] != t2[i],
    ensures
        !(strip_tag(s, t1) is Some && strip_tag(s, t2) is Some),
{
    if strip_tag(s, t1) is Some && strip_tag(s, t2) is Some {
        assert(s.subrange(0, t1.len() as int)[i] == s[i]);
        assert(s.subrange(0, t2.len() as int)[i] == s[i]);
    }
}

/// The address families of the `adb` command: the closed union over the
/// member families, each input carrying at most one member's tag.
#[derive(Clone, PartialEq, Eq, PartialOrd, Ord, Hash, Debug)]
pub enum AdbSocketFamilies {
    Tcp(Tcp),
    LocalAbstract(LocalAbstract),
    LocalReserved(LocalReserved),
    LocalFileSystem(LocalFileSystem),
    Dev(Dev),
    Jdwp(Jdwp),
    Vsock(Vsock),
    AcceptFd(AcceptFd),
}

impl AdbSocketFamily for AdbSocketFamilies {

}

impl AdbSocketFamilies {
    /// Some member family's grammar accepts `s`.
    pub open spec fn spec_parse_ok(s: Seq<char>) -> bool {
        ||| Tcp::spec_parse(s) is Some
        ||| LocalAbstract::spec_parse(s) is Some
        ||| LocalReserved::spec_parse(s) is Some
        ||| LocalFileSystem::spec_parse(s) is Some
        ||| Dev::spec_parse(s) is Some
        ||| Jdwp::spec_parse(s) is Some
        ||| Vsock::spec_parse(s) is Some
        ||| AcceptFd::spec_parse(s) is Some
    }

    /// The active member's own grammar reads `s` to exactly the payload that
    /// `u` carries.
    pub open spec fn parses_to(s: Seq<char>, u: AdbSocketFamilies) -> bool {
        match u {
            AdbSocketFamilies::Tcp(t) => Tcp::spec_parse(s) == Some(t),
            AdbSocketFamilies::LocalAbstract(a) => LocalAbstract::spec_parse(s) == Some(a.0@),
            AdbSocketFamilies::LocalReserved(a) => LocalReserved::spec_parse(s) == Some(a.0@),
            AdbSocketFamilies::LocalFileSystem(a) => LocalFileSystem::spec_parse(s) == Some(
                a.0@,
            ),
            AdbSocketFamilies::Dev(a) => Dev::spec_parse(s) == Some(a.0@),
            AdbSocketFamilies::Jdwp(j) => Jdwp::spec_parse(s) == Some(j.0),
            AdbSocketFamilies::Vsock(v) => Vsock::spec_parse(s) == Some(v),
            AdbSocketFamilies::AcceptFd(f) => AcceptFd::spec_parse(s) == Some(f.0),
        }
    }

    /// The canonical wire text: the active member's own text.
    pub open spec fn spec_format(self) -> Seq<char> {
        match self {
            AdbSocketFamilies::Tcp(t) => t.spec_format(),
            AdbSocketFamilies::LocalAbstract(a) => a.spec_format(),
            AdbSocketFamilies::LocalReserved(a) => a.spec_format(),
            AdbSocketFamilies::LocalFileSystem(a) => a.spec_format(),
            AdbSocketFamilies::Dev(a) => a.spec_format(),
            AdbSocketFamilies::Jdwp(j) => j.spec_format(),
            AdbSocketFamilies::Vsock(v) => v.spec_format(),
            AdbSocketFamilies::AcceptFd(f) => f.spec_format(),
        }
    }

    /// Renders the active member's canonical wire string.
    pub fn format(&self) -> (r: String)
        ensures
            r@ == self.spec_format(),
    {
        match self {
            AdbSocketFamilies::Tcp(t) => t.format(),
            AdbSocketFamilies::LocalAbstract(a) => a.format(),
            AdbSocketFamilies::LocalReserved(a) => a.format(),
            AdbSocketFamilies::LocalFileSystem(a) => a.format(),
            AdbSocketFamilies::Dev(a) => a.format(),
            AdbSocketFamilies::Jdwp(j) => j.format(),
            AdbSocketFamilies::Vsock(v) => v.format(),
            AdbSocketFamilies::AcceptFd(f) => f.format(),
        }
    }

    /// Tries each member family in declaration order and keeps the first
    /// success; the member tags exclude one another, so at most one can
    /// accept. Fails, discarding the members' own errors, exactly when every
    /// member fails.
    pub fn parse(s: &str) -> (r: Result<AdbSocketFamilies, AdbError>)
        ensures
            r is Ok <==> Self::spec_parse_ok(s@),
            match r {
                Ok(u) => Self::parses_to(s@, u),
                Err(e) => e.is_parse(s@, ("&str")@, ("AdbSocketFamilies")@),
            },
    {
        match Tcp::parse(s) {
            Ok(t) => {
                return Ok(AdbSocketFamilies::Tcp(t));
            },
            Err(_) => {},
        }
        match LocalAbstract::parse(s) {
            Ok(a) => {
                return Ok(AdbSocketFamilies::LocalAbstract(a));
            },
            Err(_) => {},
        }
        match LocalReserved::parse(s) {
            Ok(a) => {
                return Ok(AdbSocketFamilies::LocalReserved(a));
            },
            Err(_) => {},
        }
        match LocalFileSystem::parse(s) {
            Ok(a) => {
                return Ok(AdbSocketFamilies::LocalFileSystem(a));
            },
            Err(_) => {},
        }
        match Dev::parse(s) {
            Ok(a) => {
                return Ok(AdbSocketFamilies::Dev(a));
            },
            Err(_) => {},
        }
        match Jdwp::parse(s) {
            Ok(j) => {
                return Ok(AdbSocketFamilies::Jdwp(j));
            },
            Err(_) => {},
        }
        match Vsock::parse(s) {
            Ok(v) => {
                return Ok(AdbSocketFamilies::Vsock(v));
            },
            Err(_) => {},
        }
        match AcceptFd::parse(s) {
            Ok(f) => {
                return Ok(AdbSocketFamilies::AcceptFd(f));
            },
            Err(_) => {},
        }
        Err(AdbError::parse_failure(s.to_owned(), "&str", "AdbSocketFamilies"))
    }

    /// Tag exclusivity: an input that one member family's grammar accepts is
    /// accepted by no other member family, so parsing as the union can never
    /// produce a different family's value.
    pub proof fn tag_exclusivity(s: Seq<char>)
        ensures
            Tcp::spec_parse(s) is Some ==> !(LocalAbstract::spec_parse(s) is Some)
                && !(LocalReserved::spec_parse(s) is Some) && !(LocalFileSystem::spec_parse(s)
                is Some) && !(Dev::spec_parse(s) is Some) && !(Jdwp::spec_parse(s) is Some)
                && !(Vsock::spec_parse(s) is Some) && !(AcceptFd::spec_parse(s) is Some),
            LocalAbstract::spec_parse(s) is Some ==> !(Tcp::spec_parse(s) is Some)
                && !(LocalReserved::spec_parse(s) is Some) && !(LocalFileSystem::spec_parse(s)
                is Some) && !(Dev::spec_parse(s) is Some) && !(Jdwp::spec_parse(s) is Some)
                && !(Vsock::spec_parse(s) is Some) && !(AcceptFd::spec_parse(s) is Some),
            LocalReserved::spec_parse(s) is Some ==> !(Tcp::spec_parse(s) is Some)
                && !(LocalAbstract::spec_parse(s) is Some) && !(LocalFileSystem::spec_parse(s)
                is Some) && !(Dev::spec_parse(s) is Some) && !(Jdwp::spec_parse(s) is Some)
                && !(Vsock::spec_parse(s) is Some) && !(AcceptFd::spec_parse(s) is Some),
            LocalFileSystem::spec_parse(s) is Some ==> !(Tcp::spec_parse(s) is Some)
                && !(LocalAbstract::spec_parse(s) is Some) && !(LocalReserved::spec_parse(s)
                is Some) && !(Dev::spec_parse(s) is Some) && !(Jdwp::spec_parse(s) is Some)
                && !(Vsock::spec_parse(s) is Some) && !(AcceptFd::spec_parse(s) is Some),
            Dev::spec_parse(s) is Some ==> !(Tcp::spec_parse(s) is Some)
                && !(LocalAbstract::spec_parse(s) is Some) && !(LocalReserved::spec_parse(s)
                is Some) && !(LocalFileSystem::spec_parse(s) is Some) && !(Jdwp::spec_parse(s)
                is Some) && !(Vsock::spec_parse(s) is Some) && !(AcceptFd::spec_parse(s)
                is Some),
            Jdwp::spec_parse(s) is Some ==> !(Tcp::spec_parse(s) is Some)
                && !(LocalAbstract::spec_parse(s) is Some) && !(LocalReserved::spec_parse(s)
                is Some) && !(LocalFileSystem::spec_parse(s) is Some) && !(Dev::spec_parse(s)
                is Some) && !(Vsock::spec_parse(s) is Some) && !(AcceptFd::spec_parse(s)
                is Some),
            Vsock::spec_parse(s) is Some ==> !(Tcp::spec_parse(s) is Some)
                && !(LocalAbstract::spec_parse(s) is Some) && !(LocalReserved::spec_parse(s)
                is Some) && !(LocalFileSystem::spec_parse(s) is Some) && !(Dev::spec_parse(s)
                is Some) && !(Jdwp::spec_parse(s) is Some) && !(AcceptFd::spec_parse(s)
                is Some),
            AcceptFd::spec_parse(s) is Some ==> !(Tcp::spec_parse(s) is Some)
                && !(LocalAbstract::spec_parse(s) is Some) && !(LocalReserved::spec_parse(s)
                is Some) && !(LocalFileSystem::spec_parse(s) is Some) && !(Dev::spec_parse(s)
                is Some) && !(Jdwp::spec_parse(s) is Some) && !(Vsock::spec_parse(s) is Some),
    {
        reveal_strlit("tcp");
        reveal_strlit("localabstract");
        reveal_strlit("localreserved");
        reveal_strlit("localfilesystem");
        reveal_strlit("dev");
        reveal_strlit("jdwp");
        reveal_strlit("vsock");
        reveal_strlit("acceptfd");
        let tc = ("tcp")@;
        let la = ("localabstract")@;
        let lr = ("localreserved")@;
        let lf = ("localfilesystem")@;
        let dv = ("dev")@;
        let jd = ("jdwp")@;
        let vs = ("vsock")@;
        let af = ("acceptfd")@;
        {
            lemma_tag_mismatch(s, tc, la, 0);
            lemma_tag_mismatch(s, tc, lr, 0);
            lemma_tag_mismatch(s, tc, lf, 0);
            lemma_tag_mismatch(s, tc, dv, 0);
            lemma_tag_mismatch(s, tc, jd, 0);
            lemma_tag_mismatch(s, tc, vs, 0);
            lemma_tag_mismatch(s, tc, af, 0);
        }
        {
            lemma_tag_mismatch(s, la, lr, 5);
            lemma_tag_mismatch(s, la, lf, 5);
            lemma_tag_mismatch(s, la, dv, 0);
            lemma_tag_mismatch(s, la, jd, 0);
            lemma_tag_mismatch(s, la, vs, 0);
            lemma_tag_mismatch(s, la, af, 0);
        }
        {
            lemma_tag_mismatch(s, lr, lf, 5);
            lemma_tag_mismatch(s, lr, dv, 0);
            lemma_tag_mismatch(s, lr, jd, 0);
            lemma_tag_mismatch(s, lr, vs, 0);
            lemma_tag_mismatch(s, lr, af, 0);
        }
        {
            lemma_tag_mismatch(s, lf, dv, 0);
            lemma_tag_mismatch(s, lf, jd, 0);
            lemma_tag_mismatch(s, lf, vs, 0);
            lemma_tag_mismatch(s, lf, af, 0);
        }
        {
            lemma_tag_mismatch(s, dv, jd, 0);
            lemma_tag_mismatch(s, dv, vs, 0);
            lemma_tag_mismatch(s, dv, af, 0);
        }
        {
            lemma_tag_mismatch(s, jd, vs, 0);
            lemma_tag_mismatch(s, jd, af, 0);
        }
        {
            lemma_tag_mismatch(s, vs, af, 0);
        }
    }

    /// Round trip through the union: the canonical text of any value parses
    /// back to a value whose active member carries the same payload; the
    /// `Tcp` sentinel is excluded, as its text is empty.
    pub proof fn round_trip(u: AdbSocketFamilies)
        requires
            match u {
                AdbSocketFamilies::Tcp(t) => t.ip is Some || t.port is Some,
                _ => true,
            },
        ensures
            AdbSocketFamilies::parses_to(u.spec_format(), u),
            AdbSocketFamilies::spec_parse_ok(u.spec_format()),
    {
        match u {
            AdbSocketFamilies::Tcp(t) => {
                Tcp::round_trip(t);
            },
            AdbSocketFamilies::LocalAbstract(a) => {
                LocalAbstract::round_trip(a);
            },
            AdbSocketFamilies::LocalReserved(a) => {
                LocalReserved::round_trip(a);
            },
            AdbSocketFamilies::LocalFileSystem(a) => {
                LocalFileSystem::round_trip(a);
            },
            AdbSocketFamilies::Dev(a) => {
                Dev::round_trip(a);
            },
            AdbSocketFamilies::Jdwp(j) => {
                Jdwp::round_trip(j);
            },
            AdbSocketFamilies::Vsock(v) => {
                Vsock::round_trip(v);
            },
            AdbSocketFamilies::AcceptFd(f) => {
                AcceptFd::round_trip(f);
            },
        }
    }
}

} // verus!
