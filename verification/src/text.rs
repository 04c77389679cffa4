//! Decimal and hexadecimal text: the character-level grammar that every
//! address family builds on, together with splitting of text on separator
//! characters.

use vstd::prelude::*;

verus! {

/// `c` is an ASCII decimal digit.
pub open spec fn is_dec_digit(c: char) -> bool {
    '0' <= c && c <= '9'
}

/// Numeric value of a decimal digit.
pub open spec fn dec_digit_val(c: char) -> int {
    c as int - '0' as int
}

/// Every character of `s` is a decimal digit.
pub open spec fn all_dec_digits(s: Seq<char>) -> bool {
    forall|i: int| 0 <= i < s.len() ==> is_dec_digit(#[trigger] s[i])
}

/// Value of a digit string read as an unsigned decimal numeral.
pub open spec fn dec_val(s: Seq<char>) -> int
    decreases s.len(),
{
    if s.len() == 0 {
        0
    } else {
        dec_val(s.drop_last()) * 10 + dec_digit_val(s.last())
    }
}

/// `s` is a decimal numeral for a value of at most `max`: non-empty, digits
/// only, no sign, and no overflow of the target range.
pub open spec fn dec_ok(s: Seq<char>, max: int) -> bool {
    s.len() > 0 && all_dec_digits(s) && dec_val(s) <= max
}

/// The digit character for a value between 0 and 9.
pub open spec fn digit_char(v: int) -> char {
    if v == 0 {
        '0'
    } else if v == 1 {
        '1'
    } else if v == 2 {
        '2'
    } else if v == 3 {
        '3'
    } else if v == 4 {
        '4'
    } else if v == 5 {
        '5'
    } else if v == 6 {
        '6'
    } else if v == 7 {
        '7'
    } else if v == 8 {
        '8'
    } else {
        '9'
    }
}

/// Minimal decimal numeral of a non-negative value: no leading zeros, except
/// that zero itself is written `0`.
pub open spec fn dec_digits_of(n: int) -> Seq<char>
    recommends
        n >= 0,
    decreases n,
{
    if n < 10 {
        seq![digit_char(n)]
    } else {
        dec_digits_of(n / 10).push(digit_char(n % 10))
    }
}

pub proof fn lemma_digit_char(v: int)
    requires
        0 <= v <= 9,
    ensures
        is_dec_digit(digit_char(v)),
        dec_digit_val(digit_char(v)) == v,
{
}

/// The minimal numeral of `n` is a well-formed numeral whose value is `n`.
pub proof fn lemma_dec_digits_of(n: int)
    requires
        n >= 0,
    ensures
        dec_digits_of(n).len() >= 1,
        all_dec_digits(dec_digits_of(n)),
        dec_val(dec_digits_of(n)) == n,
        n >= 1 ==> dec_digits_of(n)[0] != '0',
        n < 10 ==> dec_digits_of(n).len() == 1,
    decreases n,
{
    if n < 10 {
        lemma_digit_char(n);
        let s = seq![digit_char(n)];
        assert(s.len() == 1);
        assert(s.last() == digit_char(n));
        assert(s.drop_last() =~= Seq::<char>::empty());
        assert(dec_val(s.drop_last()) == 0);
        assert(dec_val(s) == dec_digit_val(digit_char(n)));
    } else {
        lemma_dec_digits_of(n / 10);
        lemma_digit_char(n % 10);
        let t = dec_digits_of(n / 10);
        let s = t.push(digit_char(n % 10));
        assert(s.drop_last() =~= t);
        assert(dec_val(s) == dec_val(t) * 10 + (n % 10));
        assert(s[0] == t[0]);
        assert forall|i: int| 0 <= i < s.len() implies is_dec_digit(s[i]) by {
            if i < t.len() {
                assert(s[i] == t[i]);
            } else {
                assert(s[i] == digit_char(n % 10));
            }
        }
    }
}

pub proof fn lemma_dec_val_nonneg(s: Seq<char>)
    requires
        all_dec_digits(s),
    ensures
        dec_val(s) >= 0,
    decreases s.len(),
{
    if s.len() > 0 {
        assert(all_dec_digits(s.drop_last())) by {
            assert(forall|i: int|
                0 <= i < s.drop_last().len() ==> #[trigger] s.drop_last()[i] == s[i]);
        }
        lemma_dec_val_nonneg(s.drop_last());
        assert(is_dec_digit(s.last()));
    }
}

/// A decimal numeral is worth at least any of its prefixes: appending digits
/// never shrinks the value.
pub proof fn lemma_dec_val_prefix_le(s: Seq<char>, k: int)
    requires
        all_dec_digits(s),
        0 <= k <= s.len(),
    ensures
        dec_val(s.subrange(0, k)) <= dec_val(s),
    decreases s.len() - k,
{
    if k == s.len() {
        assert(s.subrange(0, k) =~= s);
    } else {
        let a = s.subrange(0, k);
        let b = s.subrange(0, k + 1);
        assert(b.drop_last() =~= a);
        assert(b.last() == s[k]);
        assert(all_dec_digits(a)) by {
            assert(forall|i: int| 0 <= i < a.len() ==> #[trigger] a[i] == s[i]);
        }
        lemma_dec_val_nonneg(a);
        assert(is_dec_digit(s[k]));
        assert(dec_val(b) == dec_val(a) * 10 + dec_digit_val(s[k]));
        lemma_dec_val_prefix_le(s, k + 1);
    }
}

/// Decimal digits are distinct from every separator character of the address
/// grammars.
pub proof fn lemma_dec_digit_not_sep(c: char)
    requires
        is_dec_digit(c),
    ensures
        c != ':' && c != '.' && c != '[' && c != ']',
{
}

/// `c` is an ASCII hexadecimal digit, of either case.
pub open spec fn is_hex_digit(c: char) -> bool {
    is_dec_digit(c) || ('a' <= c && c <= 'f') || ('A' <= c && c <= 'F')
}

/// Numeric value of a hexadecimal digit.
pub open spec fn hex_digit_val(c: char) -> int {
    if is_dec_digit(c) {
        dec_digit_val(c)
    } else if 'a' <= c && c <= 'f' {
        c as int - 'a' as int + 10
    } else {
        c as int - 'A' as int + 10
    }
}

/// Every character of `s` is a hexadecimal digit.
pub open spec fn all_hex_digits(s: Seq<char>) -> bool {
    forall|i: int| 0 <= i < s.len() ==> is_hex_digit(#[trigger] s[i])
}

/// Value of a digit string read as an unsigned hexadecimal numeral.
pub open spec fn hex_val(s: Seq<char>) -> int
    decreases s.len(),
{
    if s.len() == 0 {
        0
    } else {
        hex_val(s.drop_last()) * 16 + hex_digit_val(s.last())
    }
}

/// The lower-case hexadecimal digit character for a value between 0 and 15.
pub open spec fn hex_char(v: int) -> char {
    if v < 10 {
        digit_char(v)
    } else if v == 10 {
        'a'
    } else if v == 11 {
        'b'
    } else if v == 12 {
        'c'
    } else if v == 13 {
        'd'
    } else if v == 14 {
        'e'
    } else {
        'f'
    }
}

/// Minimal lower-case hexadecimal numeral of a non-negative value.
pub open spec fn hex_digits_of(n: int) -> Seq<char>
    recommends
        n >= 0,
    decreases n,
{
    if n < 16 {
        seq![hex_char(n)]
    } else {
        hex_digits_of(n / 16).push(hex_char(n % 16))
    }
}

pub proof fn lemma_hex_char(v: int)
    requires
        0 <= v <= 15,
    ensures
        is_hex_digit(hex_char(v)),
        hex_digit_val(hex_char(v)) == v,
{
}

/// Hexadecimal digits are distinct from every separator character of the
/// address grammars.
pub proof fn lemma_hex_digit_not_sep(c: char)
    requires
        is_hex_digit(c),
    ensures
        c != ':' && c != '.' && c != '[' && c != ']',
{
}

/// The minimal hexadecimal numeral of `n` is well formed, is worth `n`, and
/// takes one digit per four bits.
pub proof fn lemma_hex_digits_of(n: int)
    requires
        n >= 0,
    ensures
        hex_digits_of(n).len() >= 1,
        all_hex_digits(hex_digits_of(n)),
        hex_val(hex_digits_of(n)) == n,
        n < 0x10 ==> hex_digits_of(n).len() == 1,
        n < 0x100 ==> hex_digits_of(n).len() <= 2,
        n < 0x1000 ==> hex_digits_of(n).len() <= 3,
        n < 0x10000 ==> hex_digits_of(n).len() <= 4,
    decreases n,
{
    if n < 16 {
        lemma_hex_char(n);
        let s = seq![hex_char(n)];
        assert(s.drop_last() =~= Seq::<char>::empty());
        assert(hex_val(s.drop_last()) == 0);
        assert(hex_val(s) == hex_digit_val(hex_char(n)));
    } else {
        lemma_hex_digits_of(n / 16);
        lemma_hex_char(n % 16);
        let t = hex_digits_of(n / 16);
        let s = t.push(hex_char(n % 16));
        assert(s.drop_last() =~= t);
        assert(hex_val(s) == hex_val(t) * 16 + (n % 16));
        assert forall|i: int| 0 <= i < s.len() implies is_hex_digit(s[i]) by {
            if i < t.len() {
                assert(s[i] == t[i]);
            } else {
                assert(s[i] == hex_char(n % 16));
            }
        }
    }
}

/// Splits `s` at the first occurrence of `c`: the text before it and the text
/// after it, or nothing when `c` does not occur.
pub open spec fn split_once_at(s: Seq<char>, c: char) -> Option<(Seq<char>, Seq<char>)>
    decreases s.len(),
{
    if s.len() == 0 {
        None
    } else if s[0] == c {
        Some((Seq::empty(), s.skip(1)))
    } else {
        match split_once_at(s.skip(1), c) {
            Some(p) => Some((seq![s[0]] + p.0, p.1)),
            None => None,
        }
    }
}

pub proof fn lemma_split_once_at(s: Seq<char>, c: char)
    ensures
        match split_once_at(s, c) {
            Some(p) => s =~= p.0 + seq![c] + p.1 && !p.0.contains(c),
            None => !s.contains(c),
        },
    decreases s.len(),
{
    if s.len() == 0 {
        assert(!s.contains(c)) by {
            assert(forall|i: int| 0 <= i < s.len() ==> s[i] != c);
        }
    } else if s[0] == c {
        assert(!Seq::<char>::empty().contains(c));
    } else {
        lemma_split_once_at(s.skip(1), c);
        match split_once_at(s.skip(1), c) {
            Some(p) => {
                assert(s =~= seq![s[0]] + s.skip(1));
                let a = seq![s[0]] + p.0;
                assert(!a.contains(c)) by {
                    assert(forall|i: int| 0 <= i < a.len() ==> a[i] != c) by {
                        assert(forall|i: int|
                            1 <= i < a.len() ==> a[i] == #[trigger] p.0[i - 1]);
                        assert(forall|j: int| 0 <= j < p.0.len() ==> #[trigger] p.0[j] != c);
                    }
                }
            },
            None => {
                assert(!s.contains(c)) by {
                    assert(forall|j: int| 0 <= j < s.skip(1).len() ==> #[trigger] s.skip(1)[j] != c);
                    assert(forall|i: int| 1 <= i < s.len() ==> s[i] == s.skip(1)[i - 1]);
                    assert(forall|i: int| 0 <= i < s.len() ==> s[i] != c);
                }
            },
        }
    }
}

/// Splitting at the first `c` is determined: a `c`-free prefix, the separator,
/// and an arbitrary remainder split exactly there.
pub proof fn lemma_split_once_at_is(a: Seq<char>, b: Seq<char>, c: char)
    requires
        !a.contains(c),
    ensures
        split_once_at(a + seq![c] + b, c) == Some((a, b)),
    decreases a.len(),
{
    let s = a + seq![c] + b;
    if a.len() == 0 {
        assert(s[0] == c);
        assert(s.skip(1) =~= b);
        assert(a =~= Seq::<char>::empty());
    } else {
        assert(s[0] == a[0]);
        assert(a[0] != c) by {
            assert(a.contains(c) <==> exists|i: int| 0 <= i < a.len() && a[i] == c);
        }
        let a1 = a.skip(1);
        assert(!a1.contains(c)) by {
            assert(forall|i: int| 0 <= i < a1.len() ==> a1[i] == #[trigger] a[i + 1]);
            assert(forall|i: int| 0 <= i < a1.len() ==> a1[i] != c);
        }
        lemma_split_once_at_is(a1, b, c);
        assert(s.skip(1) =~= a1 + seq![c] + b);
        assert(seq![s[0]] + a1 =~= a);
    }
}

/// Splits `s` on every occurrence of `c`. The result always holds at least one
/// token; empty tokens stand where separators are adjacent or terminal.
pub open spec fn split_on(s: Seq<char>, c: char) -> Seq<Seq<char>>
    decreases s.len(),
{
    if s.len() == 0 {
        seq![Seq::<char>::empty()]
    } else if s[0] == c {
        seq![Seq::<char>::empty()] + split_on(s.skip(1), c)
    } else {
        let r = split_on(s.skip(1), c);
        seq![seq![s[0]] + r[0]] + r.skip(1)
    }
}

pub proof fn lemma_split_on_len(s: Seq<char>, c: char)
    ensures
        split_on(s, c).len() >= 1,
    decreases s.len(),
{
    if s.len() > 0 {
        lemma_split_on_len(s.skip(1), c);
    }
}

/// Joins tokens with the separator `c` between each adjacent pair.
pub open spec fn join_on(parts: Seq<Seq<char>>, c: char) -> Seq<char>
    decreases parts.len(),
{
    if parts.len() == 0 {
        Seq::empty()
    } else if parts.len() == 1 {
        parts[0]
    } else {
        parts[0] + seq![c] + join_on(parts.skip(1), c)
    }
}

/// A token without the separator splits to itself alone.
pub proof fn lemma_split_on_nosep(s: Seq<char>, c: char)
    requires
        !s.contains(c),
    ensures
        split_on(s, c) =~~= seq![s],
    decreases s.len(),
{
    if s.len() == 0 {
        assert(s =~= Seq::<char>::empty());
    } else {
        assert(s[0] != c) by {
            assert(s.contains(c) <==> exists|i: int| 0 <= i < s.len() && s[i] == c);
        }
        let s1 = s.skip(1);
        assert(!s1.contains(c)) by {
            assert(forall|i: int| 0 <= i < s1.len() ==> s1[i] == #[trigger] s[i + 1]);
            assert(forall|i: int| 0 <= i < s1.len() ==> s1[i] != c);
        }
        lemma_split_on_nosep(s1, c);
        assert(seq![s[0]] + s1 =~= s);
    }
}

/// Splitting walks past a leading `c`-free token and its separator.
pub proof fn lemma_split_on_step(t: Seq<char>, u: Seq<char>, c: char)
    requires
        !t.contains(c),
    ensures
        split_on(t + seq![c] + u, c) =~~= seq![t] + split_on(u, c),
    decreases t.len(),
{
    let s = t + seq![c] + u;
    if t.len() == 0 {
        assert(s[0] == c);
        assert(s.skip(1) =~= u);
        assert(t =~= Seq::<char>::empty());
    } else {
        assert(s[0] == t[0]);
        assert(t[0] != c) by {
            assert(t.contains(c) <==> exists|i: int| 0 <= i < t.len() && t[i] == c);
        }
        let t1 = t.skip(1);
        assert(!t1.contains(c)) by {
            assert(forall|i: int| 0 <= i < t1.len() ==> t1[i] == #[trigger] t[i + 1]);
            assert(forall|i: int| 0 <= i < t1.len() ==> t1[i] != c);
        }
        lemma_split_on_step(t1, u, c);
        assert(s.skip(1) =~= t1 + seq![c] + u);
        let r = split_on(s.skip(1), c);
        lemma_split_on_len(u, c);
        assert(r =~~= seq![t1] + split_on(u, c));
        assert(r[0] == t1);
        assert(seq![t[0]] + t1 =~= t);
        assert(r.skip(1) =~~= split_on(u, c));
    }
}

/// Splitting inverts joining whenever no token holds the separator.
pub proof fn lemma_split_join(parts: Seq<Seq<char>>, c: char)
    requires
        parts.len() >= 1,
        forall|i: int| 0 <= i < parts.len() ==> !(#[trigger] parts[i]).contains(c),
    ensures
        split_on(join_on(parts, c), c) =~~= parts,
    decreases parts.len(),
{
    if parts.len() == 1 {
        lemma_split_on_nosep(parts[0], c);
        assert(seq![parts[0]] =~~= parts);
    } else {
        let rest = parts.skip(1);
        assert(forall|i: int| 0 <= i < rest.len() ==> rest[i] == #[trigger] parts[i + 1]);
        lemma_split_join(rest, c);
        lemma_split_on_step(parts[0], join_on(rest, c), c);
        assert(seq![parts[0]] + rest =~~= parts);
    }
}

/// `s` holds two adjacent occurrences of `c` nowhere.
pub open spec fn no_adjacent(s: Seq<char>, c: char) -> bool {
    forall|i: int, j: int|
        0 <= i && j == i + 1 && j < s.len() ==> !(#[trigger] s[i] == c && #[trigger] s[j] == c)
}

/// `a` can stand immediately before a `::` separator: it holds no `::` of its
/// own and does not end in `:`.
pub open spec fn clean_before_double(a: Seq<char>) -> bool {
    no_adjacent(a, ':') && (a.len() > 0 ==> a[a.len() - 1] != ':')
}

/// Splits `s` at the first occurrence of `::`: the text before it and the text
/// after it, or nothing when `::` does not occur.
pub open spec fn split_double_colon(s: Seq<char>) -> Option<(Seq<char>, Seq<char>)>
    decreases s.len(),
{
    if s.len() < 2 {
        None
    } else if s[0] == ':' && s[1] == ':' {
        Some((Seq::empty(), s.skip(2)))
    } else {
        match split_double_colon(s.skip(1)) {
            Some(p) => Some((seq![s[0]] + p.0, p.1)),
            None => None,
        }
    }
}

/// Splitting at the first `::` is determined by a clean prefix.
pub proof fn lemma_split_double_colon_is(a: Seq<char>, b: Seq<char>)
    requires
        clean_before_double(a),
    ensures
        split_double_colon(a + seq![':', ':'] + b) == Some((a, b)),
    decreases a.len(),
{
    let s = a + seq![':', ':'] + b;
    if a.len() == 0 {
        assert(s[0] == ':' && s[1] == ':');
        assert(s.skip(2) =~= b);
        assert(a =~= Seq::<char>::empty());
    } else {
        assert(s[0] == a[0]);
        if a.len() == 1 {
            assert(a[0] != ':');
        } else {
            assert(s[1] == a[1]);
            assert(!(a[0] == ':' && a[1] == ':'));
        }
        assert(!(s[0] == ':' && s[1] == ':')) by {
            if a.len() == 1 {
                assert(a[0] != ':');
            }
        }
        let a1 = a.skip(1);
        assert(forall|k: int| 0 <= k < a1.len() ==> a1[k] == #[trigger] a[k + 1]);
        assert(clean_before_double(a1)) by {
            assert forall|i: int, j: int|
                0 <= i && j == i + 1 && j < a1.len() implies !(a1[i] == ':' && a1[j]
                == ':') by {
                assert(a1[i] == a[i + 1]);
                assert(a1[j] == a[j + 1]);
                assert(!(a[i + 1] == ':' && a[j + 1] == ':'));
            }
            if a1.len() > 0 {
                assert(a1[a1.len() - 1] == a[a.len() - 1]);
            }
        }
        lemma_split_double_colon_is(a1, b);
        assert(s.skip(1) =~= a1 + seq![':', ':'] + b);
        assert(seq![s[0]] + a1 =~= a);
    }
}

/// Without adjacent colons there is no `::` to split at.
pub proof fn lemma_split_double_colon_none(s: Seq<char>)
    requires
        no_adjacent(s, ':'),
    ensures
        split_double_colon(s) == None::<(Seq<char>, Seq<char>)>,
    decreases s.len(),
{
    if s.len() >= 2 {
        assert(!(s[0] == ':' && s[1] == ':'));
        let s1 = s.skip(1);
        assert(forall|k: int| 0 <= k < s1.len() ==> s1[k] == #[trigger] s[k + 1]);
        assert(no_adjacent(s1, ':')) by {
            assert forall|i: int, j: int|
                0 <= i && j == i + 1 && j < s1.len() implies !(s1[i] == ':' && s1[j]
                == ':') by {
                assert(s1[i] == s[i + 1]);
                assert(s1[j] == s[j + 1]);
                assert(!(s[i + 1] == ':' && s[j + 1] == ':'));
            }
        }
        lemma_split_double_colon_none(s1);
    }
}

/// Joining non-empty, colon-free tokens with `:` yields text that neither
/// starts nor ends with a colon and holds no `::`.
pub proof fn lemma_join_clean(parts: Seq<Seq<char>>, c: char)
    requires
        parts.len() >= 1,
        forall|i: int| 0 <= i < parts.len() ==> (#[trigger] parts[i]).len() > 0,
        forall|i: int| 0 <= i < parts.len() ==> !(#[trigger] parts[i]).contains(c),
    ensures
        join_on(parts, c).len() > 0,
        join_on(parts, c)[0] != c,
        join_on(parts, c)[join_on(parts, c).len() - 1] != c,
        no_adjacent(join_on(parts, c), c),
    decreases parts.len(),
{
    let jn = join_on(parts, c);
    let p0 = parts[0];
    assert(forall|k: int| 0 <= k < p0.len() ==> p0[k] != c) by {
        assert(p0.contains(c) <==> exists|k: int| 0 <= k < p0.len() && p0[k] == c);
    }
    if parts.len() == 1 {
        assert(jn == p0);
    } else {
        let rest = parts.skip(1);
        assert(forall|i: int| 0 <= i < rest.len() ==> rest[i] == #[trigger] parts[i + 1]);
        lemma_join_clean(rest, c);
        let rj = join_on(rest, c);
        assert(jn =~= p0 + seq![c] + rj);
        assert(jn[0] == p0[0]);
        assert(jn[jn.len() - 1] == rj[rj.len() - 1]);
        assert forall|i: int, j: int|
            0 <= i && j == i + 1 && j < jn.len() implies !(jn[i] == c && jn[j] == c) by {
            if j < p0.len() {
                assert(jn[i] == p0[i]);
            } else if j == p0.len() {
                assert(jn[i] == p0[i]);
            } else if i == p0.len() {
                assert(jn[j] == rj[0]);
            } else {
                assert(jn[i] == rj[i - p0.len() - 1]);
                assert(jn[j] == rj[j - p0.len() - 1]);
                assert(!(rj[i - p0.len() - 1] == c && rj[j - p0.len() - 1] == c));
            }
        }
    }
}

/// Collects the characters of `s` into a vector, so that parsing can index
/// them freely.
pub fn to_chars(s: &str) -> (r: Vec<char>)
    ensures
        r@ == s@,
{
    let n = s.unicode_len();
    let mut v: Vec<char> = Vec::new();
    let mut i: usize = 0;
    while i < n
        invariant
            i <= n,
            n == s@.len(),
            v@ =~= s@.subrange(0, i as int),
        decreases n - i,
    {
        v.push(s.get_char(i));
        i = i + 1;
        proof {
            assert(v@ =~= s@.subrange(0, i as int));
        }
    }
    proof {
        assert(v@ =~= s@);
    }
    v
}

/// Reads `cs[lo..hi]` as an unsigned decimal numeral worth at most `max`.
pub fn parse_dec_range(cs: &Vec<char>, lo: usize, hi: usize, max: u32) -> (r: Option<u32>)
    requires
        lo <= hi <= cs@.len(),
    ensures
        match r {
            Some(v) => dec_ok(cs@.subrange(lo as int, hi as int), max as int) && v as int
                == dec_val(cs@.subrange(lo as int, hi as int)) && v <= max,
            None => !dec_ok(cs@.subrange(lo as int, hi as int), max as int),
        },
{
    let ghost s = cs@.subrange(lo as int, hi as int);
    if lo == hi {
        return None;
    }
    let mut acc: u64 = 0;
    let mut i: usize = lo;
    while i < hi
        invariant
            lo <= i <= hi <= cs@.len(),
            s == cs@.subrange(lo as int, hi as int),
            max <= u32::MAX,
            all_dec_digits(s.subrange(0, i - lo)),
            acc as int == dec_val(s.subrange(0, i - lo)),
            acc <= max,
        decreases hi - i,
    {
        let c = cs[i];
        proof {
            assert(s[i - lo] == cs@[i as int]);
        }
        if !('0' <= c && c <= '9') {
            proof {
                assert(!all_dec_digits(s));
            }
            return None;
        }
        let d: u32 = c as u32 - '0' as u32;
        let a2: u64 = acc * 10 + d as u64;
        proof {
            let k = i - lo;
            assert(s.subrange(0, k + 1).drop_last() =~= s.subrange(0, k));
            assert(s.subrange(0, k + 1).last() == s[k]);
            assert(dec_digit_val(s[k]) == d as int);
            assert(all_dec_digits(s.subrange(0, k + 1))) by {
                assert(forall|m: int|
                    0 <= m < k + 1 ==> #[trigger] s.subrange(0, k + 1)[m] == s[m]);
                assert(forall|m: int| 0 <= m < k ==> #[trigger] s.subrange(0, k)[m] == s[m]);
            }
            assert(a2 as int == dec_val(s.subrange(0, k + 1)));
        }
        if a2 > max as u64 {
            proof {
                let k = i - lo;
                if dec_ok(s, max as int) {
                    lemma_dec_val_prefix_le(s, k + 1);
                    assert(dec_val(s.subrange(0, k + 1)) <= dec_val(s));
                }
            }
            return None;
        }
        acc = a2;
        i = i + 1;
    }
    proof {
        assert(s.subrange(0, (hi - lo) as int) =~= s);
    }
    Some(acc as u32)
}

/// Reads `cs[lo..hi]` as a hexadecimal group of an IPv6 address: one to four
/// hexadecimal digits of either case.
pub fn parse_hex_group(cs: &Vec<char>, lo: usize, hi: usize) -> (r: Option<u16>)
    requires
        lo <= hi <= cs@.len(),
    ensures
        match r {
            Some(v) => hex_group_ok(cs@.subrange(lo as int, hi as int)) && v as int == hex_val(
                cs@.subrange(lo as int, hi as int),
            ),
            None => !hex_group_ok(cs@.subrange(lo as int, hi as int)),
        },
{
    let ghost s = cs@.subrange(lo as int, hi as int);
    if lo == hi || hi - lo > 4 {
        return None;
    }
    let mut acc: u32 = 0;
    let mut i: usize = lo;
    while i < hi
        invariant
            lo <= i <= hi <= cs@.len(),
            hi - lo <= 4,
            s == cs@.subrange(lo as int, hi as int),
            all_hex_digits(s.subrange(0, i - lo)),
            acc as int == hex_val(s.subrange(0, i - lo)),
            acc < 0x10000,
        decreases hi - i,
    {
        let c = cs[i];
        proof {
            assert(s[i - lo] == cs@[i as int]);
        }
        let d: u32 = if '0' <= c && c <= '9' {
            c as u32 - '0' as u32
        } else if 'a' <= c && c <= 'f' {
            c as u32 - 'a' as u32 + 10
        } else if 'A' <= c && c <= 'F' {
            c as u32 - 'A' as u32 + 10
        } else {
            proof {
                assert(!all_hex_digits(s));
            }
            return None;
        };
        proof {
            let k = i - lo;
            assert(s.subrange(0, k + 1).drop_last() =~= s.subrange(0, k));
            assert(s.subrange(0, k + 1).last() == s[k]);
            assert(hex_digit_val(s[k]) == d as int);
            assert(all_hex_digits(s.subrange(0, k + 1))) by {
                assert(forall|m: int|
                    0 <= m < k + 1 ==> #[trigger] s.subrange(0, k + 1)[m] == s[m]);
                assert(forall|m: int| 0 <= m < k ==> #[trigger] s.subrange(0, k)[m] == s[m]);
            }
            assert(all_hex_digits(s.subrange(0, k + 1)));
            lemma_hex_val_bound(s.subrange(0, k + 1));
        }
        acc = acc * 16 + d;
        i = i + 1;
    }
    proof {
        assert(s.subrange(0, (hi - lo) as int) =~= s);
    }
    Some(acc as u16)
}

/// `s` is a well-formed group of an IPv6 address: one to four hexadecimal
/// digits.
pub open spec fn hex_group_ok(s: Seq<char>) -> bool {
    1 <= s.len() <= 4 && all_hex_digits(s)
}

/// Position of the first occurrence of `c` in `cs[lo..hi]`.
pub fn find_in_range(cs: &Vec<char>, lo: usize, hi: usize, c: char) -> (r: Option<usize>)
    requires
        lo <= hi <= cs@.len(),
    ensures
        match r {
            Some(k) => lo <= k < hi && cs@[k as int] == c && forall|j: int|
                lo <= j < k ==> cs@[j] != c,
            None => forall|j: int| lo <= j < hi ==> cs@[j] != c,
        },
{
    let mut i: usize = lo;
    while i < hi
        invariant
            lo <= i <= hi <= cs@.len(),
            forall|j: int| lo <= j < i ==> cs@[j] != c,
        decreases hi - i,
    {
        if cs[i] == c {
            return Some(i);
        }
        i = i + 1;
    }
    None
}

/// Position of the first occurrence of `::` in `cs[lo..hi]`.
pub fn find_double_colon_in_range(cs: &Vec<char>, lo: usize, hi: usize) -> (r: Option<usize>)
    requires
        lo <= hi <= cs@.len(),
    ensures
        match r {
            Some(k) => lo <= k && k + 1 < hi && cs@[k as int] == ':' && cs@[k + 1] == ':'
                && forall|j1: int, j2: int|
                lo <= j1 && j2 == j1 + 1 && j1 < k ==> !(#[trigger] cs@[j1] == ':'
                    && #[trigger] cs@[j2] == ':'),
            None => forall|j1: int, j2: int|
                lo <= j1 && j2 == j1 + 1 && j1 < hi - 1 ==> !(#[trigger] cs@[j1] == ':'
                    && #[trigger] cs@[j2] == ':'),
        },
{
    if hi == lo {
        return None;
    }
    let mut i: usize = lo;
    while i < hi - 1
        invariant
            lo <= i <= hi <= cs@.len(),
            hi > lo,
            forall|j1: int, j2: int|
                lo <= j1 && j2 == j1 + 1 && j1 < i ==> !(#[trigger] cs@[j1] == ':'
                    && #[trigger] cs@[j2] == ':'),
        decreases hi - i,
    {
        if cs[i] == ':' && cs[i + 1] == ':' {
            return Some(i);
        }
        i = i + 1;
    }
    None
}

/// The decimal digit `d` as a one-character text.
pub fn digit_str(d: u8) -> (r: &'static str)
    requires
        d <= 9,
    ensures
        r@ =~= seq![digit_char(d as int)],
{
    proof {
        reveal_strlit("0");
        reveal_strlit("1");
        reveal_strlit("2");
        reveal_strlit("3");
        reveal_strlit("4");
        reveal_strlit("5");
        reveal_strlit("6");
        reveal_strlit("7");
        reveal_strlit("8");
        reveal_strlit("9");
    }
    match d {
        0 => "0",
        1 => "1",
        2 => "2",
        3 => "3",
        4 => "4",
        5 => "5",
        6 => "6",
        7 => "7",
        8 => "8",
        _ => "9",
    }
}

/// The hexadecimal digit `d` as a one-character lower-case text.
pub fn hex_str(d: u8) -> (r: &'static str)
    requires
        d <= 15,
    ensures
        r@ =~= seq![hex_char(d as int)],
{
    if d <= 9 {
        digit_str(d)
    } else {
        proof {
            reveal_strlit("a");
            reveal_strlit("b");
            reveal_strlit("c");
            reveal_strlit("d");
            reveal_strlit("e");
            reveal_strlit("f");
        }
        match d {
            10 => "a",
            11 => "b",
            12 => "c",
            13 => "d",
            14 => "e",
            _ => "f",
        }
    }
}

/// Appends the minimal decimal numeral of `n` to `out`.
pub fn append_dec_u32(out: &mut String, n: u32)
    ensures
        final(out)@ == old(out)@ + dec_digits_of(n as int),
{
    if n == 0 {
        proof {
            reveal_strlit("0");
        }
        out.append("0");
        proof {
            assert(dec_digits_of(0) =~= seq![digit_char(0)]);
            assert(out@ =~= old(out)@ + dec_digits_of(0));
        }
        return ;
    }
    let mut ds: Vec<u8> = Vec::new();
    let mut m: u32 = n;
    while m > 0
        invariant
            dec_digits_of(n as int) =~= (if m > 0 {
                dec_digits_of(m as int)
            } else {
                Seq::<char>::empty()
            }) + Seq::new(ds@.len(), |i: int| digit_char(ds@[ds@.len() - 1 - i] as int)),
            forall|i: int| 0 <= i < ds@.len() ==> #[trigger] ds@[i] <= 9,
            m > 0 || ds@.len() > 0,
            out@ == old(out)@,
        decreases m,
    {
        let d: u8 = (m % 10) as u8;
        let m2: u32 = m / 10;
        proof {
            let rev = Seq::new(ds@.len(), |i: int| digit_char(ds@[ds@.len() - 1 - i] as int));
            let ds2 = ds@.push(d);
            let rev2 = Seq::new(ds2.len(), |i: int| digit_char(ds2[ds2.len() - 1 - i] as int));
            assert(rev2 =~= seq![digit_char(d as int)] + rev);
            if m >= 10 {
                assert(dec_digits_of(m as int) == dec_digits_of(m2 as int).push(
                    digit_char(d as int),
                ));
                assert(dec_digits_of(m2 as int).push(digit_char(d as int)) + rev =~= dec_digits_of(
                    m2 as int,
                ) + rev2);
            } else {
                assert(dec_digits_of(m as int) =~= seq![digit_char(m as int)]);
                assert(seq![digit_char(m as int)] + rev =~= rev2);
            }
        }
        ds.push(d);
        m = m2;
    }
    let ghost rev = Seq::new(ds@.len(), |i: int| digit_char(ds@[ds@.len() - 1 - i] as int));
    proof {
        assert(dec_digits_of(n as int) =~= rev);
    }
    let mut i: usize = 0;
    while i < ds.len()
        invariant
            i <= ds@.len(),
            rev == Seq::new(ds@.len(), |k: int| digit_char(ds@[ds@.len() - 1 - k] as int)),
            forall|k: int| 0 <= k < ds@.len() ==> #[trigger] ds@[k] <= 9,
            out@ =~= old(out)@ + rev.subrange(0, i as int),
        decreases ds@.len() - i,
    {
        let d = ds[ds.len() - 1 - i];
        let piece = digit_str(d);
        out.append(piece);
        i = i + 1;
        proof {
            assert(out@ =~= old(out)@ + rev.subrange(0, i as int));
        }
    }
    proof {
        assert(rev.subrange(0, rev.len() as int) =~= rev);
        assert(out@ =~= old(out)@ + dec_digits_of(n as int));
    }
}

/// An all-hexadecimal string of at most four digits is worth less than 2^16.
pub proof fn lemma_hex_val_bound(s: Seq<char>)
    requires
        all_hex_digits(s),
    ensures
        hex_val(s) >= 0,
        s.len() == 0 ==> hex_val(s) == 0,
        s.len() <= 1 ==> hex_val(s) < 0x10,
        s.len() <= 2 ==> hex_val(s) < 0x100,
        s.len() <= 3 ==> hex_val(s) < 0x1000,
        s.len() <= 4 ==> hex_val(s) < 0x10000,
    decreases s.len(),
{
    if s.len() > 0 {
        assert(all_hex_digits(s.drop_last())) by {
            assert(forall|i: int|
                0 <= i < s.drop_last().len() ==> #[trigger] s.drop_last()[i] == s[i]);
        }
        lemma_hex_val_bound(s.drop_last());
        assert(is_hex_digit(s.last()));
    }
}


/// Appends the minimal lower-case hexadecimal numeral of `g` to `out`.
pub fn append_hex_u16(out: &mut String, g: u16)
    ensures
        final(out)@ == old(out)@ + hex_digits_of(g as int),
{
    if g == 0 {
        proof {
            reveal_strlit("0");
        }
        out.append("0");
        proof {
            assert(hex_digits_of(0) =~= seq![hex_char(0)]);
            assert(out@ =~= old(out)@ + hex_digits_of(0));
        }
        return ;
    }
    let mut ds: Vec<u8> = Vec::new();
    let mut m: u16 = g;
    while m > 0
        invariant
            hex_digits_of(g as int) =~= (if m > 0 {
                hex_digits_of(m as int)
            } else {
                Seq::<char>::empty()
            }) + Seq::new(ds@.len(), |i: int| hex_char(ds@[ds@.len() - 1 - i] as int)),
            forall|i: int| 0 <= i < ds@.len() ==> #[trigger] ds@[i] <= 15,
            m > 0 || ds@.len() > 0,
            out@ == old(out)@,
        decreases m,
    {
        let d: u8 = (m % 16) as u8;
        let m2: u16 = m / 16;
        proof {
            let rev = Seq::new(ds@.len(), |i: int| hex_char(ds@[ds@.len() - 1 - i] as int));
            let ds2 = ds@.push(d);
            let rev2 = Seq::new(ds2.len(), |i: int| hex_char(ds2[ds2.len() - 1 - i] as int));
            assert(rev2 =~= seq![hex_char(d as int)] + rev);
            if m >= 16 {
                assert(hex_digits_of(m as int) == hex_digits_of(m2 as int).push(
                    hex_char(d as int),
                ));
                assert(hex_digits_of(m2 as int).push(hex_char(d as int)) + rev =~= hex_digits_of(
                    m2 as int,
                ) + rev2);
            } else {
                assert(hex_digits_of(m as int) =~= seq![hex_char(m as int)]);
                assert(seq![hex_char(m as int)] + rev =~= rev2);
            }
        }
        ds.push(d);
        m = m2;
    }
    let ghost rev = Seq::new(ds@.len(), |i: int| hex_char(ds@[ds@.len() - 1 - i] as int));
    proof {
        assert(hex_digits_of(g as int) =~= rev);
    }
    let mut i: usize = 0;
    while i < ds.len()
        invariant
            i <= ds@.len(),
            rev == Seq::new(ds@.len(), |k: int| hex_char(ds@[ds@.len() - 1 - k] as int)),
            forall|k: int| 0 <= k < ds@.len() ==> #[trigger] ds@[k] <= 15,
            out@ =~= old(out)@ + rev.subrange(0, i as int),
        decreases ds@.len() - i,
    {
        let d = ds[ds.len() - 1 - i];
        let piece = hex_str(d);
        out.append(piece);
        i = i + 1;
        proof {
            assert(out@ =~= old(out)@ + rev.subrange(0, i as int));
        }
    }
    proof {
        assert(rev.subrange(0, rev.len() as int) =~= rev);
        assert(out@ =~= old(out)@ + hex_digits_of(g as int));
    }
}

/// Joining splits off its last token as well as its first.
pub proof fn lemma_join_snoc(parts: Seq<Seq<char>>, c: char)
    requires
        parts.len() >= 2,
    ensures
        join_on(parts, c) == join_on(parts.drop_last(), c) + seq![c] + parts.last(),
    decreases parts.len(),
{
    if parts.len() == 2 {
        assert(parts.skip(1) =~~= seq![parts[1]]);
        assert(join_on(parts.skip(1), c) == parts[1]);
        assert(parts.drop_last() =~~= seq![parts[0]]);
    } else {
        let rest = parts.skip(1);
        lemma_join_snoc(rest, c);
        assert(rest.drop_last() =~~= parts.drop_last().skip(1));
        assert(rest.last() == parts.last());
        assert(join_on(parts, c) == parts[0] + seq![c] + join_on(rest, c));
        assert(join_on(rest, c) == join_on(rest.drop_last(), c) + seq![c] + parts.last());
        assert(parts.drop_last()[0] == parts[0]);
        assert(join_on(parts.drop_last(), c) == parts[0] + seq![c] + join_on(
            parts.drop_last().skip(1),
            c,
        ));
        assert(parts[0] + seq![c] + (join_on(rest.drop_last(), c) + seq![c] + parts.last()) =~= (
        parts[0] + seq![c] + join_on(rest.drop_last(), c)) + seq![c] + parts.last());
    }
}

/// Strips the leading tag and the colon after it: `tag:rest` gives `rest`.
/// Since no tag holds a colon, this is exactly a split at the first colon
/// whose left side must equal the tag.
pub open spec fn strip_tag(s: Seq<char>, tag: Seq<char>) -> Option<Seq<char>> {
    if s.len() > tag.len() && s.subrange(0, tag.len() as int) == tag && s[tag.len() as int]
        == ':' {
        Some(s.skip(tag.len() as int + 1))
    } else {
        None
    }
}

/// Checks for the leading tag of a family and returns the index just past its
/// colon.
pub fn strip_tag_exec(cs: &Vec<char>, tag: &str) -> (r: Option<usize>)
    ensures
        match r {
            Some(k) => k as int == tag@.len() + 1 && k <= cs@.len() && strip_tag(cs@, tag@)
                == Some(cs@.skip(k as int)),
            None => strip_tag(cs@, tag@) == None::<Seq<char>>,
        },
{
    let n = tag.unicode_len();
    if cs.len() <= n {
        return None;
    }
    let mut i: usize = 0;
    while i < n
        invariant
            i <= n,
            n == tag@.len(),
            n < cs@.len(),
            forall|j: int| 0 <= j < i ==> cs@[j] == tag@[j],
        decreases n - i,
    {
        if cs[i] != tag.get_char(i) {
            proof {
                assert(cs@.subrange(0, n as int)[i as int] == cs@[i as int]);
                assert(cs@.subrange(0, n as int) != tag@);
            }
            return None;
        }
        i = i + 1;
    }
    if cs[n] != ':' {
        return None;
    }
    proof {
        assert(cs@.subrange(0, n as int) =~= tag@);
    }
    Some(n + 1)
}


/// A tag, its colon, and any remainder strip back to that remainder.
pub proof fn lemma_strip_tag_of(tag: Seq<char>, rest: Seq<char>)
    ensures
        strip_tag(tag + seq![':'] + rest, tag) == Some(rest),
{
    let s = tag + seq![':'] + rest;
    assert(s.subrange(0, tag.len() as int) =~= tag);
    assert(s[tag.len() as int] == ':');
    assert(s.skip(tag.len() as int + 1) =~= rest);
}


/// Every character of a join of all-hexadecimal tokens is a hexadecimal digit
/// or the colon separator.
pub proof fn lemma_join_all_hex(parts: Seq<Seq<char>>)
    requires
        forall|j: int| 0 <= j < parts.len() ==> all_hex_digits(#[trigger] parts[j]),
    ensures
        forall|i: int|
            0 <= i < join_on(parts, ':').len() ==> (is_hex_digit(
                #[trigger] join_on(parts, ':')[i],
            ) || join_on(parts, ':')[i] == ':'),
    decreases parts.len(),
{
    let jn = join_on(parts, ':');
    if parts.len() == 0 {
    } else if parts.len() == 1 {
        assert(jn == parts[0]);
        assert(all_hex_digits(parts[0]));
    } else {
        let rest = parts.skip(1);
        assert(forall|q: int| 0 <= q < rest.len() ==> rest[q] == #[trigger] parts[q + 1]);
        lemma_join_all_hex(rest);
        let rj = join_on(rest, ':');
        assert(jn == parts[0] + seq![':'] + rj);
        assert(all_hex_digits(parts[0]));
        assert forall|i: int| 0 <= i < jn.len() implies (is_hex_digit(jn[i]) || jn[i]
            == ':') by {
            if i < parts[0].len() {
                assert(jn[i] == parts[0][i]);
            } else if i == parts[0].len() {
                assert(jn[i] == ':');
            } else {
                assert(jn[i] == rj[i - parts[0].len() - 1]);
            }
        }
    }
}

} // verus!
