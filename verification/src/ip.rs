//! Structured IP addresses and their text forms: dotted decimal quads and
//! colon-separated hexadecimal groups with `::` compression.

use vstd::prelude::*;

use crate::text::all_dec_digits;
use crate::text::dec_digits_of;
use crate::text::dec_val;
use crate::text::lemma_dec_digit_not_sep;
use crate::text::lemma_dec_digits_of;
use crate::text::parse_dec_range;
use crate::text::split_on;
use crate::text::join_on;
use crate::text::lemma_split_join;
use crate::text::lemma_split_on_nosep;
use crate::text::lemma_split_on_step;
use crate::text::lemma_split_on_len;
use crate::text::find_in_range;
use crate::text::append_dec_u32;
use crate::text::hex_digits_of;
use crate::text::hex_val;
use crate::text::hex_group_ok;
use crate::text::parse_hex_group;
use crate::text::append_hex_u16;
use crate::text::lemma_hex_digits_of;
use crate::text::lemma_hex_digit_not_sep;
use crate::text::lemma_join_snoc;
use crate::text::lemma_join_clean;
use crate::text::split_double_colon;
use crate::text::clean_before_double;
use crate::text::no_adjacent;
use crate::text::lemma_split_double_colon_is;
use crate::text::lemma_split_double_colon_none;
use crate::text::find_double_colon_in_range;
use crate::text::is_dec_digit;
use crate::text::is_hex_digit;
use crate::text::all_hex_digits;
use crate::text::lemma_join_all_hex;

verus! {

/// An IPv4 address, one field per octet of `a.b.c.d`.
#[derive(Copy, Clone, PartialEq, Eq, PartialOrd, Ord, Hash, Debug)]
pub struct Ipv4Addr {
    pub o0: u8,
    pub o1: u8,
    pub o2: u8,
    pub o3: u8,
}

impl Ipv4Addr {
    /// The address `a.b.c.d`.
    pub fn new(a: u8, b: u8, c: u8, d: u8) -> (r: Self)
        ensures
            r == (Ipv4Addr { o0: a, o1: b, o2: c, o3: d }),
    {
        Ipv4Addr { o0: a, o1: b, o2: c, o3: d }
    }
}

/// `s` is a well-formed octet of a dotted quad: decimal digits worth at most
/// 255, with no leading zero.
pub open spec fn octet_ok(s: Seq<char>) -> bool {
    s.len() >= 1 && all_dec_digits(s) && dec_val(s) <= 255 && (s.len() == 1 || s[0] != '0')
}

/// Reads a dotted decimal quad: exactly four octets separated by `.`.
pub open spec fn parse_ipv4(s: Seq<char>) -> Option<Ipv4Addr> {
    let parts = split_on(s, '.');
    if parts.len() == 4 && octet_ok(parts[0]) && octet_ok(parts[1]) && octet_ok(parts[2])
        && octet_ok(parts[3]) {
        Some(
            Ipv4Addr {
                o0: dec_val(parts[0]) as u8,
                o1: dec_val(parts[1]) as u8,
                o2: dec_val(parts[2]) as u8,
                o3: dec_val(parts[3]) as u8,
            },
        )
    } else {
        None
    }
}

/// The canonical dotted decimal text of an IPv4 address.
pub open spec fn ipv4_text(v: Ipv4Addr) -> Seq<char> {
    dec_digits_of(v.o0 as int) + seq!['.'] + dec_digits_of(v.o1 as int) + seq!['.']
        + dec_digits_of(v.o2 as int) + seq!['.'] + dec_digits_of(v.o3 as int)
}

/// Splits `cs[lo..hi]` at every occurrence of `c` into index ranges, one per
/// token of `split_on`.
pub fn split_tokens(cs: &Vec<char>, lo: usize, hi: usize, c: char) -> (r: Vec<(usize, usize)>)
    requires
        lo <= hi <= cs@.len(),
    ensures
        r@.len() == split_on(cs@.subrange(lo as int, hi as int), c).len(),
        forall|i: int| 0 <= i < r@.len() ==> lo <= (#[trigger] r@[i]).0 <= r@[i].1 <= hi,
        forall|i: int|
            0 <= i < r@.len() ==> split_on(cs@.subrange(lo as int, hi as int), c)[i]
                == cs@.subrange((#[trigger] r@[i]).0 as int, r@[i].1 as int),
{
    let ghost s = cs@.subrange(lo as int, hi as int);
    let mut r: Vec<(usize, usize)> = Vec::new();
    let mut pos: usize = lo;
    loop
        invariant
            lo <= pos <= hi <= cs@.len(),
            s == cs@.subrange(lo as int, hi as int),
            split_on(s, c) =~~= Seq::new(
                r@.len(),
                |i: int| cs@.subrange(r@[i].0 as int, r@[i].1 as int),
            ) + split_on(cs@.subrange(pos as int, hi as int), c),
            forall|i: int| 0 <= i < r@.len() ==> lo <= (#[trigger] r@[i]).0 <= r@[i].1 <= hi,
        decreases hi - pos,
    {
        let ghost done = Seq::new(r@.len(), |i: int| cs@.subrange(r@[i].0 as int, r@[i].1 as int));
        let ghost tail = cs@.subrange(pos as int, hi as int);
        match find_in_range(cs, pos, hi, c) {
            Some(k) => {
                proof {
                    let tok = cs@.subrange(pos as int, k as int);
                    assert(!tok.contains(c)) by {
                        assert(forall|m: int| 0 <= m < tok.len() ==> tok[m] == cs@[pos + m]);
                        assert(forall|m: int| 0 <= m < tok.len() ==> tok[m] != c);
                        assert(tok.contains(c) <==> exists|m: int|
                            0 <= m < tok.len() && tok[m] == c);
                    }
                    assert(tail =~= tok + seq![c] + cs@.subrange(k + 1, hi as int));
                    lemma_split_on_step(tok, cs@.subrange(k + 1, hi as int), c);
                    let done2 = Seq::new(
                        r@.push((pos, k)).len(),
                        |i: int|
                            cs@.subrange(
                                r@.push((pos, k))[i].0 as int,
                                r@.push((pos, k))[i].1 as int,
                            ),
                    );
                    assert(done2 =~~= done + seq![tok]);
                    assert(split_on(s, c) =~~= done2 + split_on(cs@.subrange(k + 1, hi as int), c));
                }
                r.push((pos, k));
                pos = k + 1;
            },
            None => {
                proof {
                    assert(!tail.contains(c)) by {
                        assert(forall|m: int| 0 <= m < tail.len() ==> tail[m] == cs@[pos + m]);
                        assert(forall|m: int| 0 <= m < tail.len() ==> tail[m] != c);
                        assert(tail.contains(c) <==> exists|m: int|
                            0 <= m < tail.len() && tail[m] == c);
                    }
                    lemma_split_on_nosep(tail, c);
                    let done2 = Seq::new(
                        r@.push((pos, hi)).len(),
                        |i: int|
                            cs@.subrange(
                                r@.push((pos, hi))[i].0 as int,
                                r@.push((pos, hi))[i].1 as int,
                            ),
                    );
                    assert(done2 =~~= done + seq![tail]);
                    assert(split_on(s, c) =~~= done2);
                }
                r.push((pos, hi));
                return r;
            },
        }
    }
}

/// Reads `cs[lo..hi]` as one octet of a dotted quad.
fn parse_octet(cs: &Vec<char>, lo: usize, hi: usize) -> (r: Option<u8>)
    requires
        lo <= hi <= cs@.len(),
    ensures
        match r {
            Some(v) => octet_ok(cs@.subrange(lo as int, hi as int)) && v as int == dec_val(
                cs@.subrange(lo as int, hi as int),
            ),
            None => !octet_ok(cs@.subrange(lo as int, hi as int)),
        },
{
    let ghost s = cs@.subrange(lo as int, hi as int);
    if hi > lo && hi - lo > 1 && cs[lo] == '0' {
        proof {
            assert(s[0] == cs@[lo as int]);
        }
        return None;
    }
    match parse_dec_range(cs, lo, hi, 255) {
        Some(v) => Some(v as u8),
        None => None,
    }
}

/// Reads `cs[lo..hi]` as a dotted decimal quad.
pub fn parse_ipv4_range(cs: &Vec<char>, lo: usize, hi: usize) -> (r: Option<Ipv4Addr>)
    requires
        lo <= hi <= cs@.len(),
    ensures
        match r {
            Some(v) => parse_ipv4(cs@.subrange(lo as int, hi as int)) == Some(v),
            None => parse_ipv4(cs@.subrange(lo as int, hi as int)) is None,
        },
{
    let toks = split_tokens(cs, lo, hi, '.');
    if toks.len() != 4 {
        return None;
    }
    let t0 = toks[0];
    let t1 = toks[1];
    let t2 = toks[2];
    let t3 = toks[3];
    let r0 = parse_octet(cs, t0.0, t0.1);
    let r1 = parse_octet(cs, t1.0, t1.1);
    let r2 = parse_octet(cs, t2.0, t2.1);
    let r3 = parse_octet(cs, t3.0, t3.1);
    match (r0, r1, r2, r3) {
        (Some(a), Some(b), Some(c), Some(d)) => Some(Ipv4Addr::new(a, b, c, d)),
        _ => None,
    }
}

/// Appends the dotted decimal text of `v` to `out`.
pub fn append_ipv4(out: &mut String, v: &Ipv4Addr)
    ensures
        final(out)@ == old(out)@ + ipv4_text(*v),
{
    proof {
        reveal_strlit(".");
    }
    append_dec_u32(out, v.o0 as u32);
    out.append(".");
    append_dec_u32(out, v.o1 as u32);
    out.append(".");
    append_dec_u32(out, v.o2 as u32);
    out.append(".");
    append_dec_u32(out, v.o3 as u32);
    proof {
        assert((".")@ =~= seq!['.']);
        assert(out@ =~= old(out)@ + ipv4_text(*v));
    }
}

/// Parsing reads the canonical dotted text of any IPv4 address back to the
/// same value.
pub proof fn lemma_ipv4_round_trip(v: Ipv4Addr)
    ensures
        parse_ipv4(ipv4_text(v)) == Some(v),
{
    let t0 = dec_digits_of(v.o0 as int);
    let t1 = dec_digits_of(v.o1 as int);
    let t2 = dec_digits_of(v.o2 as int);
    let t3 = dec_digits_of(v.o3 as int);
    lemma_dec_digits_of(v.o0 as int);
    lemma_dec_digits_of(v.o1 as int);
    lemma_dec_digits_of(v.o2 as int);
    lemma_dec_digits_of(v.o3 as int);
    let parts = seq![t0, t1, t2, t3];
    assert forall|i: int| 0 <= i < parts.len() implies !(#[trigger] parts[i]).contains('.') by {
        let t = parts[i];
        assert(all_dec_digits(t));
        assert forall|m: int| 0 <= m < t.len() implies t[m] != '.' by {
            lemma_dec_digit_not_sep(t[m]);
        }
        assert(t.contains('.') <==> exists|m: int| 0 <= m < t.len() && t[m] == '.');
    }
    lemma_split_join(parts, '.');
    assert(parts.skip(1) =~~= seq![t1, t2, t3]);
    assert(parts.skip(1).skip(1) =~~= seq![t2, t3]);
    assert(parts.skip(1).skip(1).skip(1) =~~= seq![t3]);
    assert(join_on(seq![t3], '.') == t3);
    assert(join_on(seq![t2, t3], '.') == t2 + seq!['.'] + t3);
    assert(join_on(seq![t1, t2, t3], '.') == t1 + seq!['.'] + (t2 + seq!['.'] + t3));
    assert(join_on(parts, '.') == t0 + seq!['.'] + (t1 + seq!['.'] + (t2 + seq!['.'] + t3)));
    assert(join_on(parts, '.') =~= ipv4_text(v));
    assert(split_on(ipv4_text(v), '.') =~~= parts);
    assert(octet_ok(t0) && octet_ok(t1) && octet_ok(t2) && octet_ok(t3));
    assert(parse_ipv4(ipv4_text(v)) == Some(v));
}


/// An IPv6 address, one field per 16-bit group.
#[derive(Copy, Clone, PartialEq, Eq, PartialOrd, Ord, Hash, Debug)]
pub struct Ipv6Addr {
    pub s0: u16,
    pub s1: u16,
    pub s2: u16,
    pub s3: u16,
    pub s4: u16,
    pub s5: u16,
    pub s6: u16,
    pub s7: u16,
}

impl Ipv6Addr {
    /// The eight 16-bit groups as a sequence.
    pub open spec fn seg_seq(self) -> Seq<u16> {
        seq![self.s0, self.s1, self.s2, self.s3, self.s4, self.s5, self.s6, self.s7]
    }

    /// The address `a:b:c:d:e:f:g:h`.
    pub fn new(a: u16, b: u16, c: u16, d: u16, e: u16, f: u16, g: u16, h: u16) -> (r: Self)
        ensures
            r.seg_seq() == seq![a, b, c, d, e, f, g, h],
    {
        Ipv6Addr { s0: a, s1: b, s2: c, s3: d, s4: e, s5: f, s6: g, s7: h }
    }

    /// Group `i` of the address.
    pub fn segment(&self, i: usize) -> (r: u16)
        requires
            i < 8,
        ensures
            r == self.seg_seq()[i as int],
    {
        match i {
            0 => self.s0,
            1 => self.s1,
            2 => self.s2,
            3 => self.s3,
            4 => self.s4,
            5 => self.s5,
            6 => self.s6,
            _ => self.s7,
        }
    }
}

/// The address whose groups are `gs`.
pub open spec fn ipv6_from_groups(gs: Seq<u16>) -> Ipv6Addr
    recommends
        gs.len() == 8,
{
    Ipv6Addr {
        s0: gs[0],
        s1: gs[1],
        s2: gs[2],
        s3: gs[3],
        s4: gs[4],
        s5: gs[5],
        s6: gs[6],
        s7: gs[7],
    }
}

/// Every token is a well-formed hexadecimal group.
pub open spec fn all_groups_ok(parts: Seq<Seq<char>>) -> bool {
    forall|i: int| 0 <= i < parts.len() ==> hex_group_ok(#[trigger] parts[i])
}

/// The group values of a list of hexadecimal tokens.
pub open spec fn hex_group_vals(parts: Seq<Seq<char>>) -> Seq<u16> {
    Seq::new(parts.len(), |i: int| hex_val(parts[i]) as u16)
}

/// The two trailing groups encoded by an embedded IPv4 tail.
pub open spec fn v4_tail_groups(v: Ipv4Addr) -> Seq<u16> {
    seq![(v.o0 as int * 256 + v.o1 as int) as u16, (v.o2 as int * 256 + v.o3 as int) as u16]
}

/// Reads one side of an IPv6 address: colon-separated hexadecimal groups,
/// where the last token may instead be an embedded IPv4 dotted quad when
/// `allow_v4` holds (only the tail of an address may embed one). Empty text
/// stands for no groups at all.
pub open spec fn group_list(t: Seq<char>, allow_v4: bool) -> Option<Seq<u16>> {
    if t.len() == 0 {
        Some(Seq::<u16>::empty())
    } else {
        let parts = split_on(t, ':');
        if all_groups_ok(parts) {
            Some(hex_group_vals(parts))
        } else if allow_v4 && all_groups_ok(parts.drop_last()) {
            match parse_ipv4(parts.last()) {
                Some(v) => Some(hex_group_vals(parts.drop_last()) + v4_tail_groups(v)),
                None => None,
            }
        } else {
            None
        }
    }
}

/// `n` zero groups.
pub open spec fn zero_groups(n: int) -> Seq<u16>
    recommends
        n >= 0,
{
    Seq::new(n as nat, |i: int| 0u16)
}

/// Reads the text of an IPv6 address: either eight groups without `::`, or a
/// front and a back part around one `::` that stands for the omitted zero
/// groups, of which there must be at least one.
pub open spec fn parse_ipv6(s: Seq<char>) -> Option<Seq<u16>> {
    match split_double_colon(s) {
        None => match group_list(s, true) {
            Some(g) => if g.len() == 8 {
                Some(g)
            } else {
                None
            },
            None => None,
        },
        Some(p) => match (group_list(p.0, false), group_list(p.1, true)) {
            (Some(f), Some(b)) => if f.len() + b.len() <= 7 {
                Some(f + zero_groups(8 - f.len() - b.len()) + b)
            } else {
                None
            },
            _ => None,
        },
    }
}

/// Number of zero groups standing at position `i`.
pub open spec fn zero_run_len(gs: Seq<u16>, i: int) -> int
    decreases gs.len() - i,
{
    if i < 0 || i >= gs.len() || gs[i] != 0 {
        0
    } else {
        1 + zero_run_len(gs, i + 1)
    }
}

/// Start of the longest zero run at or after `i`, the leftmost among equals;
/// `gs.len()` when every run is empty.
pub open spec fn best_zero_start(gs: Seq<u16>, i: int) -> int
    decreases gs.len() - i,
{
    if i >= gs.len() {
        i
    } else {
        let rest = best_zero_start(gs, i + 1);
        if zero_run_len(gs, i) >= zero_run_len(gs, rest) {
            i
        } else {
            rest
        }
    }
}

pub proof fn lemma_zero_run_len(gs: Seq<u16>, i: int)
    requires
        0 <= i <= gs.len(),
    ensures
        0 <= zero_run_len(gs, i),
        i + zero_run_len(gs, i) <= gs.len(),
        forall|k: int| i <= k < i + zero_run_len(gs, i) ==> gs[k] == 0,
    decreases gs.len() - i,
{
    if i < gs.len() && gs[i] == 0 {
        lemma_zero_run_len(gs, i + 1);
    }
}

pub proof fn lemma_best_zero_start(gs: Seq<u16>, i: int)
    requires
        0 <= i <= gs.len(),
    ensures
        i <= best_zero_start(gs, i) <= gs.len(),
    decreases gs.len() - i,
{
    if i < gs.len() {
        lemma_best_zero_start(gs, i + 1);
    }
}

/// The hexadecimal tokens of a group sequence, one per group.
pub open spec fn hex_tokens(gs: Seq<u16>) -> Seq<Seq<char>> {
    Seq::new(gs.len(), |i: int| hex_digits_of(gs[i] as int))
}

/// The canonical text of an IPv6 address: minimal lower-case hexadecimal
/// groups joined with `:`, with the longest zero run of length at least two
/// (the leftmost among equals) compressed to `::`.
pub open spec fn ipv6_text(gs: Seq<u16>) -> Seq<char>
    recommends
        gs.len() == 8,
{
    let st = best_zero_start(gs, 0);
    let ln = zero_run_len(gs, st);
    if ln >= 2 {
        join_on(hex_tokens(gs.subrange(0, st)), ':') + seq![':', ':'] + join_on(
            hex_tokens(gs.subrange(st + ln, gs.len() as int)),
            ':',
        )
    } else {
        join_on(hex_tokens(gs), ':')
    }
}


/// Reads `cs[lo..hi]` as one side of an IPv6 address.
fn parse_group_list(cs: &Vec<char>, lo: usize, hi: usize, allow_v4: bool) -> (r: Option<Vec<u16>>)
    requires
        lo <= hi <= cs@.len(),
    ensures
        match r {
            Some(v) => group_list(cs@.subrange(lo as int, hi as int), allow_v4) == Some(v@),
            None => group_list(cs@.subrange(lo as int, hi as int), allow_v4) is None,
        },
{
    let ghost s = cs@.subrange(lo as int, hi as int);
    if lo == hi {
        let r: Vec<u16> = Vec::new();
        proof {
            assert(r@ =~= Seq::<u16>::empty());
        }
        return Some(r);
    }
    let toks = split_tokens(cs, lo, hi, ':');
    let ghost parts = split_on(s, ':');
    proof {
        lemma_split_on_len(s, ':');
    }
    let n = toks.len();
    let mut out: Vec<u16> = Vec::new();
    let mut i: usize = 0;
    while i < n - 1
        invariant
            lo <= hi <= cs@.len(),
            s == cs@.subrange(lo as int, hi as int),
            parts == split_on(s, ':'),
            n == toks@.len(),
            n == parts.len(),
            n >= 1,
            i <= n - 1,
            forall|j: int| 0 <= j < n ==> lo <= (#[trigger] toks@[j]).0 <= toks@[j].1 <= hi,
            forall|j: int|
                0 <= j < n ==> parts[j] == cs@.subrange(
                    (#[trigger] toks@[j]).0 as int,
                    toks@[j].1 as int,
                ),
            all_groups_ok(parts.take(i as int)),
            out@ =~= hex_group_vals(parts.take(i as int)),
            out@.len() == i,
        decreases n - 1 - i,
    {
        let t = toks[i];
        match parse_hex_group(cs, t.0, t.1) {
            Some(g) => {
                proof {
                    assert(parts[i as int] == cs@.subrange(t.0 as int, t.1 as int));
                    assert(hex_group_ok(parts[i as int]));
                    assert(parts.take(i + 1).drop_last() =~~= parts.take(i as int));
                    assert(all_groups_ok(parts.take(i + 1))) by {
                        assert(forall|j: int|
                            0 <= j < i + 1 ==> #[trigger] parts.take(i + 1)[j] == parts[j]);
                        assert(forall|j: int|
                            0 <= j < i ==> #[trigger] parts.take(i as int)[j] == parts[j]);
                    }
                    assert(out@.push(g) =~= hex_group_vals(parts.take(i + 1)));
                }
                out.push(g);
            },
            None => {
                proof {
                    assert(parts[i as int] == cs@.subrange(t.0 as int, t.1 as int));
                    assert(!hex_group_ok(parts[i as int]));
                    assert(!all_groups_ok(parts));
                    assert(!all_groups_ok(parts.drop_last())) by {
                        assert(parts.drop_last()[i as int] == parts[i as int]);
                    }
                }
                return None;
            },
        }
        i = i + 1;
    }
    let t = toks[n - 1];
    proof {
        assert(parts[n - 1] == cs@.subrange(t.0 as int, t.1 as int));
        assert(parts.take(n - 1) =~~= parts.drop_last());
    }
    match parse_hex_group(cs, t.0, t.1) {
        Some(g) => {
            proof {
                assert(hex_group_ok(parts[n - 1]));
                assert(all_groups_ok(parts.take(n - 1)));
                assert forall|j: int| 0 <= j < n implies hex_group_ok(#[trigger] parts[j]) by {
                    if j < n - 1 {
                        assert(parts.take(n - 1)[j] == parts[j]);
                        assert(hex_group_ok(parts.take(n - 1)[j]));
                    }
                }
                assert(out@.push(g) =~= hex_group_vals(parts));
            }
            out.push(g);
            Some(out)
        },
        None => {
            proof {
                assert(!hex_group_ok(parts[n - 1]));
                assert(!all_groups_ok(parts));
            }
            if !allow_v4 {
                return None;
            }
            match parse_ipv4_range(cs, t.0, t.1) {
                Some(v4) => {
                    proof {
                        assert(parse_ipv4(parts.last()) == Some(v4));
                        assert(all_groups_ok(parts.drop_last()));
                    }
                    let g0: u16 = (v4.o0 as u16) * 256 + (v4.o1 as u16);
                    let g1: u16 = (v4.o2 as u16) * 256 + (v4.o3 as u16);
                    out.push(g0);
                    out.push(g1);
                    proof {
                        assert(out@ =~= hex_group_vals(parts.drop_last()) + v4_tail_groups(v4));
                    }
                    Some(out)
                },
                None => {
                    proof {
                        assert(parse_ipv4(parts.last()) is None);
                    }
                    None
                },
            }
        },
    }
}

/// Reads `cs[lo..hi]` as the text of an IPv6 address.
#[verifier::rlimit(60)]
pub fn parse_ipv6_range(cs: &Vec<char>, lo: usize, hi: usize) -> (r: Option<Ipv6Addr>)
    requires
        lo <= hi <= cs@.len(),
    ensures
        match r {
            Some(v) => parse_ipv6(cs@.subrange(lo as int, hi as int)) == Some(v.seg_seq()),
            None => parse_ipv6(cs@.subrange(lo as int, hi as int)) is None,
        },
{
    let ghost s = cs@.subrange(lo as int, hi as int);
    match find_double_colon_in_range(cs, lo, hi) {
        Some(k) => {
            let ghost a = cs@.subrange(lo as int, k as int);
            let ghost b = cs@.subrange(k + 2, hi as int);
            proof {
                assert(clean_before_double(a)) by {
                    assert forall|i1: int, j1: int|
                        0 <= i1 && j1 == i1 + 1 && j1 < a.len() implies !(#[trigger] a[i1] == ':'
                        && #[trigger] a[j1] == ':') by {
                        assert(a[i1] == cs@[lo + i1]);
                        assert(a[j1] == cs@[lo + j1]);
                        assert(!(cs@[lo + i1] == ':' && cs@[lo + i1 + 1] == ':'));
                    }
                    if a.len() > 0 {
                        assert(a[a.len() - 1] == cs@[k - 1]);
                        assert(!(cs@[k - 1] == ':' && cs@[k - 1 + 1] == ':'));
                    }
                }
                assert(s =~= a + seq![':', ':'] + b);
                lemma_split_double_colon_is(a, b);
                assert(split_double_colon(s) == Some((a, b)));
            }
            let f = parse_group_list(cs, lo, k, false);
            let bk = parse_group_list(cs, k + 2, hi, true);
            match (f, bk) {
                (Some(fv), Some(bv)) => {
                    if fv.len() <= 7 && bv.len() <= 7 - fv.len() {
                        let zn: usize = 8 - fv.len() - bv.len();
                        let mut gs: Vec<u16> = Vec::new();
                        let mut j: usize = 0;
                        while j < fv.len()
                            invariant
                                j <= fv@.len(),
                                gs@ =~= fv@.subrange(0, j as int),
                            decreases fv@.len() - j,
                        {
                            gs.push(fv[j]);
                            j = j + 1;
                            proof {
                                assert(gs@ =~= fv@.subrange(0, j as int));
                            }
                        }
                        proof {
                            assert(fv@.subrange(0, fv@.len() as int) =~= fv@);
                        }
                        let mut z: usize = 0;
                        while z < zn
                            invariant
                                z <= zn,
                                gs@ =~= fv@ + zero_groups(z as int),
                            decreases zn - z,
                        {
                            gs.push(0);
                            z = z + 1;
                            proof {
                                assert(gs@ =~= fv@ + zero_groups(z as int));
                            }
                        }
                        j = 0;
                        while j < bv.len()
                            invariant
                                j <= bv@.len(),
                                gs@ =~= fv@ + zero_groups(zn as int) + bv@.subrange(0, j as int),
                            decreases bv@.len() - j,
                        {
                            gs.push(bv[j]);
                            j = j + 1;
                            proof {
                                assert(gs@ =~= fv@ + zero_groups(zn as int) + bv@.subrange(
                                    0,
                                    j as int,
                                ));
                            }
                        }
                        proof {
                            assert(bv@.subrange(0, bv@.len() as int) =~= bv@);
                            assert(gs@ =~= fv@ + zero_groups(zn as int) + bv@);
                            assert(gs@.len() == 8);
                        }
                        let v = Ipv6Addr::new(gs[0], gs[1], gs[2], gs[3], gs[4], gs[5], gs[6], gs[7]);
                        proof {
                            assert(v.seg_seq() =~= gs@);
                        }
                        Some(v)
                    } else {
                        None
                    }
                },
                _ => None,
            }
        },
        None => {
            proof {
                assert(no_adjacent(s, ':')) by {
                    assert forall|i1: int, j1: int|
                        0 <= i1 && j1 == i1 + 1 && j1 < s.len() implies !(#[trigger] s[i1] == ':'
                        && #[trigger] s[j1] == ':') by {
                        assert(s[i1] == cs@[lo + i1]);
                        assert(s[j1] == cs@[lo + j1]);
                        assert(!(cs@[lo + i1] == ':' && cs@[lo + i1 + 1] == ':'));
                    }
                }
                lemma_split_double_colon_none(s);
            }
            match parse_group_list(cs, lo, hi, true) {
                Some(gv) => {
                    if gv.len() == 8 {
                        let v = Ipv6Addr::new(gv[0], gv[1], gv[2], gv[3], gv[4], gv[5], gv[6], gv[7]);
                        proof {
                            assert(v.seg_seq() =~= gv@);
                        }
                        Some(v)
                    } else {
                        None
                    }
                },
                None => None,
            }
        },
    }
}

/// Zeros run for exactly as long as the groups are zero.
proof fn lemma_zero_run_chars(gs: Seq<u16>, i: int, j: int)
    requires
        0 <= i <= j <= gs.len(),
        forall|k: int| i <= k < j ==> gs[k] == 0,
        j == gs.len() || gs[j] != 0,
    ensures
        zero_run_len(gs, i) == j - i,
    decreases j - i,
{
    if i < j {
        lemma_zero_run_chars(gs, i + 1, j);
    }
}

/// Length of the zero run starting at `i`.
fn run_len_at(v: &Ipv6Addr, i: usize) -> (r: usize)
    requires
        i <= 8,
    ensures
        r as int == zero_run_len(v.seg_seq(), i as int),
{
    let ghost gs = v.seg_seq();
    let mut j: usize = i;
    while j < 8 && v.segment(j) == 0
        invariant
            i <= j <= 8,
            gs == v.seg_seq(),
            forall|k: int| i <= k < j ==> gs[k] == 0,
        decreases 8 - j,
    {
        j = j + 1;
    }
    proof {
        lemma_zero_run_chars(gs, i as int, j as int);
    }
    j - i
}

/// The start and length of the zero run that formatting compresses: the
/// longest, the leftmost among equals.
fn best_zero_run(v: &Ipv6Addr) -> (r: (usize, usize))
    ensures
        r.0 as int == best_zero_start(v.seg_seq(), 0),
        r.1 as int == zero_run_len(v.seg_seq(), r.0 as int),
        r.0 <= 8,
{
    let ghost gs = v.seg_seq();
    let mut best: usize = 8;
    let mut ii: usize = 8;
    while ii > 0
        invariant
            ii <= 8,
            best <= 8,
            gs == v.seg_seq(),
            best as int == best_zero_start(gs, ii as int),
        decreases ii,
    {
        ii = ii - 1;
        let li = run_len_at(v, ii);
        let lb = run_len_at(v, best);
        if li >= lb {
            best = ii;
        }
    }
    let ln = run_len_at(v, best);
    (best, ln)
}

/// Appends groups `from..to` of `v`, joined with `:`.
fn append_groups(out: &mut String, v: &Ipv6Addr, from: usize, to: usize)
    requires
        from <= to <= 8,
    ensures
        final(out)@ == old(out)@ + join_on(
            hex_tokens(v.seg_seq().subrange(from as int, to as int)),
            ':',
        ),
{
    let ghost gs = v.seg_seq();
    proof {
        reveal_strlit(":");
    }
    let mut i: usize = from;
    while i < to
        invariant
            from <= i <= to <= 8,
            gs == v.seg_seq(),
            out@ =~= old(out)@ + join_on(hex_tokens(gs.subrange(from as int, i as int)), ':'),
        decreases to - i,
    {
        let ghost toks2 = hex_tokens(gs.subrange(from as int, i + 1));
        if i > from {
            proof {
                reveal_strlit(":");
            }
            out.append(":");
            proof {
                assert((":")@ =~= seq![':']);
            }
        }
        append_hex_u16(out, v.segment(i));
        proof {
            let toks1 = hex_tokens(gs.subrange(from as int, i as int));
            assert(toks2.drop_last() =~~= toks1);
            assert(toks2.last() == hex_digits_of(gs[i as int] as int));
            if i > from {
                lemma_join_snoc(toks2, ':');
                assert(join_on(toks2, ':') == join_on(toks1, ':') + seq![':'] + toks2.last());
            } else {
                assert(toks2 =~~= seq![hex_digits_of(gs[i as int] as int)]);
                assert(join_on(toks2, ':') == toks2[0]);
                assert(join_on(toks1, ':') == Seq::<char>::empty());
            }
        }
        i = i + 1;
        proof {
            assert(out@ =~= old(out)@ + join_on(hex_tokens(gs.subrange(from as int, i as int)), ':'));
        }
    }
}

/// Appends the canonical text of an IPv6 address to `out`.
pub fn append_ipv6(out: &mut String, v: &Ipv6Addr)
    ensures
        final(out)@ == old(out)@ + ipv6_text(v.seg_seq()),
{
    let ghost gs = v.seg_seq();
    let (st, ln) = best_zero_run(v);
    proof {
        lemma_best_zero_start(gs, 0);
        lemma_zero_run_len(gs, st as int);
    }
    if ln >= 2 {
        append_groups(out, v, 0, st);
        proof {
            reveal_strlit("::");
        }
        out.append("::");
        proof {
            assert(("::")@ =~= seq![':', ':']);
        }
        append_groups(out, v, st + ln, 8);
        proof {
            assert(out@ =~= old(out)@ + ipv6_text(gs));
        }
    } else {
        append_groups(out, v, 0, 8);
        proof {
            assert(gs.subrange(0, 8) =~= gs);
            assert(out@ =~= old(out)@ + ipv6_text(gs));
        }
    }
}


/// The hexadecimal tokens of any group sequence are well-formed, non-empty,
/// colon-free, and worth their groups.
proof fn lemma_hex_tokens(xs: Seq<u16>)
    ensures
        hex_tokens(xs).len() == xs.len(),
        forall|i: int| 0 <= i < xs.len() ==> (#[trigger] hex_tokens(xs)[i]).len() > 0,
        forall|i: int| 0 <= i < xs.len() ==> !(#[trigger] hex_tokens(xs)[i]).contains(':'),
        all_groups_ok(hex_tokens(xs)),
        hex_group_vals(hex_tokens(xs)) =~= xs,
{
    let toks = hex_tokens(xs);
    assert forall|i: int| 0 <= i < xs.len() implies hex_group_ok(#[trigger] toks[i])
        && !toks[i].contains(':') && toks[i].len() > 0 by {
        lemma_hex_digits_of(xs[i] as int);
        let t = toks[i];
        assert(t == hex_digits_of(xs[i] as int));
        assert forall|m: int| 0 <= m < t.len() implies t[m] != ':' by {
            lemma_hex_digit_not_sep(t[m]);
        }
        assert(t.contains(':') <==> exists|m: int| 0 <= m < t.len() && t[m] == ':');
    }
    assert forall|i: int| 0 <= i < xs.len() implies #[trigger] hex_group_vals(toks)[i]
        == xs[i] by {
        lemma_hex_digits_of(xs[i] as int);
    }
    assert(hex_group_vals(toks) =~= xs);
}

/// Parsing reads the canonical text of any IPv6 address back to the same
/// groups.
pub proof fn lemma_ipv6_round_trip(gs: Seq<u16>)
    requires
        gs.len() == 8,
    ensures
        parse_ipv6(ipv6_text(gs)) == Some(gs),
{
    let st = best_zero_start(gs, 0);
    let ln = zero_run_len(gs, st);
    lemma_best_zero_start(gs, 0);
    lemma_zero_run_len(gs, st);
    if ln >= 2 {
        let front = gs.subrange(0, st);
        let back = gs.subrange(st + ln, 8);
        let ft = hex_tokens(front);
        let bt = hex_tokens(back);
        let fj = join_on(ft, ':');
        let bj = join_on(bt, ':');
        let s = fj + seq![':', ':'] + bj;
        assert(ipv6_text(gs) == s);
        lemma_hex_tokens(front);
        lemma_hex_tokens(back);
        if st == 0 {
            assert(ft =~~= Seq::<Seq<char>>::empty());
            assert(fj =~= Seq::<char>::empty());
            assert(clean_before_double(fj));
        } else {
            lemma_join_clean(ft, ':');
        }
        lemma_split_double_colon_is(fj, bj);
        assert(split_double_colon(s) == Some((fj, bj)));
        if st == 0 {
            assert(fj.len() == 0);
            assert(group_list(fj, false) == Some(Seq::<u16>::empty()));
            assert(front =~= Seq::<u16>::empty());
        } else {
            lemma_join_clean(ft, ':');
            lemma_split_join(ft, ':');
            assert(split_on(fj, ':') =~~= ft);
            assert(group_list(fj, false) == Some(hex_group_vals(ft)));
        }
        assert(group_list(fj, false) == Some(front));
        if st + ln == 8 {
            assert(bt =~~= Seq::<Seq<char>>::empty());
            assert(bj =~= Seq::<char>::empty());
            assert(bj.len() == 0);
            assert(group_list(bj, true) == Some(Seq::<u16>::empty()));
            assert(back =~= Seq::<u16>::empty());
        } else {
            lemma_join_clean(bt, ':');
            lemma_split_join(bt, ':');
            assert(split_on(bj, ':') =~~= bt);
            assert(group_list(bj, true) == Some(hex_group_vals(bt)));
        }
        assert(group_list(bj, true) == Some(back));
        assert(front.len() + back.len() == 8 - ln);
        assert(front + zero_groups(8 - front.len() - back.len()) + back =~= gs);
        assert(parse_ipv6(s) == Some(gs));
    } else {
        let toks = hex_tokens(gs);
        let s = join_on(toks, ':');
        assert(ipv6_text(gs) == s);
        lemma_hex_tokens(gs);
        lemma_join_clean(toks, ':');
        lemma_split_double_colon_none(s);
        lemma_split_join(toks, ':');
        assert(split_on(s, ':') =~~= toks);
        assert(s.len() > 0);
        assert(group_list(s, true) == Some(hex_group_vals(toks)));
        assert(hex_group_vals(toks) =~= gs);
        assert(parse_ipv6(s) == Some(gs));
    }
}


/// An IP address of either family.
#[derive(Copy, Clone, PartialEq, Eq, PartialOrd, Ord, Hash, Debug)]
pub enum IpAddr {
    V4(Ipv4Addr),
    V6(Ipv6Addr),
}


/// Every character of a dotted quad text is a digit or a dot; it starts with a
/// digit, and a dot stands right after the first octet.
pub proof fn lemma_ipv4_text_chars(v: Ipv4Addr)
    ensures
        forall|i: int|
            0 <= i < ipv4_text(v).len() ==> (is_dec_digit(#[trigger] ipv4_text(v)[i])
                || ipv4_text(v)[i] == '.'),
        ipv4_text(v).len() > 0,
        is_dec_digit(ipv4_text(v)[0]),
        ipv4_text(v)[dec_digits_of(v.o0 as int).len() as int] == '.',
{
    let d0 = dec_digits_of(v.o0 as int);
    let d1 = dec_digits_of(v.o1 as int);
    let d2 = dec_digits_of(v.o2 as int);
    let d3 = dec_digits_of(v.o3 as int);
    lemma_dec_digits_of(v.o0 as int);
    lemma_dec_digits_of(v.o1 as int);
    lemma_dec_digits_of(v.o2 as int);
    lemma_dec_digits_of(v.o3 as int);
    let t = ipv4_text(v);
    let n0 = d0.len() as int;
    let n1 = n0 + 1 + d1.len() as int;
    let n2 = n1 + 1 + d2.len() as int;
    assert forall|i: int| 0 <= i < t.len() implies (is_dec_digit(t[i]) || t[i] == '.') by {
        if i < n0 {
            assert(t[i] == d0[i]);
        } else if i == n0 {
            assert(t[i] == '.');
        } else if i < n1 {
            assert(t[i] == d1[i - n0 - 1]);
        } else if i == n1 {
            assert(t[i] == '.');
        } else if i < n2 {
            assert(t[i] == d2[i - n1 - 1]);
        } else if i == n2 {
            assert(t[i] == '.');
        } else {
            assert(t[i] == d3[i - n2 - 1]);
        }
    }
    assert(t[0] == d0[0]);
    assert(t[n0] == '.');
}

/// Every character of an IPv6 text is a hexadecimal digit or a colon.
pub proof fn lemma_ipv6_text_chars(gs: Seq<u16>)
    requires
        gs.len() == 8,
    ensures
        forall|i: int|
            0 <= i < ipv6_text(gs).len() ==> (is_hex_digit(#[trigger] ipv6_text(gs)[i])
                || ipv6_text(gs)[i] == ':'),
{
    let st = best_zero_start(gs, 0);
    let ln = zero_run_len(gs, st);
    lemma_best_zero_start(gs, 0);
    lemma_zero_run_len(gs, st);
    let t = ipv6_text(gs);
    if ln >= 2 {
        let ft = hex_tokens(gs.subrange(0, st));
        let bt = hex_tokens(gs.subrange(st + ln, 8));
        lemma_hex_tokens(gs.subrange(0, st));
        lemma_hex_tokens(gs.subrange(st + ln, 8));
        assert(forall|q: int| 0 <= q < ft.len() ==> all_hex_digits(#[trigger] ft[q]));
        assert(forall|q: int| 0 <= q < bt.len() ==> all_hex_digits(#[trigger] bt[q]));
        lemma_join_all_hex(ft);
        lemma_join_all_hex(bt);
        let fj = join_on(ft, ':');
        let bj = join_on(bt, ':');
        assert(t == fj + seq![':', ':'] + bj);
        assert forall|i: int| 0 <= i < t.len() implies (is_hex_digit(t[i]) || t[i] == ':') by {
            if i < fj.len() {
                assert(t[i] == fj[i]);
            } else if i < fj.len() + 2 {
                assert(t[i] == ':');
            } else {
                assert(t[i] == bj[i - fj.len() - 2]);
            }
        }
    } else {
        lemma_hex_tokens(gs);
        assert(forall|q: int|
            0 <= q < hex_tokens(gs).len() ==> all_hex_digits(#[trigger] hex_tokens(gs)[q]));
        lemma_join_all_hex(hex_tokens(gs));
    }
}

} // verus!
