//! The library's own model of IP addresses.
//!
//! Route endpoints and nameserver entries are held as plain values: four
//! octets for IPv4, eight 16-bit segments for IPv6.  Rendering to text and
//! reading back from text are defined here, so that route identities and the
//! persisted document are functions of these values alone.
use vstd::prelude::*;

verus! {

/// An IP address as plain values.
#[derive(Clone, Copy, Debug, PartialEq, Eq, Structural)]
pub enum IpAddress {
    V4(u8, u8, u8, u8),
    V6(u16, u16, u16, u16, u16, u16, u16, u16),
}

impl IpAddress {
    /// The IPv6 segments as a sequence; empty for an IPv4 address.
    pub open spec fn segments(self) -> Seq<u16> {
        match self {
            IpAddress::V4(_, _, _, _) => Seq::empty(),
            IpAddress::V6(s0, s1, s2, s3, s4, s5, s6, s7) => seq![s0, s1, s2, s3, s4, s5, s6, s7],
        }
    }

    /// The all-zero address of either family.
    pub open spec fn spec_is_unspecified(self) -> bool {
        match self {
            IpAddress::V4(a, b, c, d) => a == 0 && b == 0 && c == 0 && d == 0,
            IpAddress::V6(s0, s1, s2, s3, s4, s5, s6, s7) => s0 == 0 && s1 == 0 && s2 == 0
                && s3 == 0 && s4 == 0 && s5 == 0 && s6 == 0 && s7 == 0,
        }
    }

    pub fn is_unspecified(&self) -> (r: bool)
        ensures
            r == self.spec_is_unspecified(),
    {
        match *self {
            IpAddress::V4(a, b, c, d) => a == 0 && b == 0 && c == 0 && d == 0,
            IpAddress::V6(s0, s1, s2, s3, s4, s5, s6, s7) => s0 == 0 && s1 == 0 && s2 == 0
                && s3 == 0 && s4 == 0 && s5 == 0 && s6 == 0 && s7 == 0,
        }
    }

    /// The unspecified IPv4 address, 0.0.0.0.
    pub fn unspecified_v4() -> (r: IpAddress)
        ensures
            r == IpAddress::V4(0u8, 0u8, 0u8, 0u8),
    {
        IpAddress::V4(0, 0, 0, 0)
    }

    /// The unspecified IPv6 address, `::`.
    pub fn unspecified_v6() -> (r: IpAddress)
        ensures
            r == IpAddress::V6(0u16, 0u16, 0u16, 0u16, 0u16, 0u16, 0u16, 0u16),
    {
        IpAddress::V6(0, 0, 0, 0, 0, 0, 0, 0)
    }

    /// Renders the address: dotted decimal for IPv4; lowercase hex groups
    /// with the leftmost longest zero run (of two or more groups)
    /// compressed to `::` for IPv6.
    pub fn to_text(&self) -> (s: String)
        ensures
            s@ == ip_text(*self),
    {
        match *self {
            IpAddress::V4(a, b, c, d) => {
                let mut s = dec_string(a as u32);
                s.append(dot_str());
                s.append(dec_string(b as u32).as_str());
                s.append(dot_str());
                s.append(dec_string(c as u32).as_str());
                s.append(dot_str());
                s.append(dec_string(d as u32).as_str());
                s
            },
            IpAddress::V6(s0, s1, s2, s3, s4, s5, s6, s7) => {
                if s0 == 0 && s1 == 0 && s2 == 0 && s3 == 0 && s4 == 0 && s5 == 0 && !(s6 == 0
                    && (s7 == 0 || s7 == 1)) {
                    let mut s = String::from_str(colon_str());
                    s.append(colon_str());
                    s.append(quad_string(s6, s7).as_str());
                    assert(s@ =~= compat_text(s6, s7));
                    s
                } else if s0 == 0 && s1 == 0 && s2 == 0 && s3 == 0 && s4 == 0 && s5 == 0xffff {
                    proof {
                        reveal_strlit("::ffff:");
                    }
                    let mut s = String::from_str("::ffff:");
                    assert(s@ =~= seq![':', ':', 'f', 'f', 'f', 'f', ':']);
                    s.append(quad_string(s6, s7).as_str());
                    assert(s@ =~= mapped_text(s6, s7));
                    s
                } else {
                    let segs: Vec<u16> = vec![s0, s1, s2, s3, s4, s5, s6, s7];
                    assert(segs@ =~= self.segments());
                    ipv6_string(&segs)
                }
            },
        }
    }
}

/// The two final groups rendered as a dotted quad.
fn quad_string(g: u16, h: u16) -> (s: String)
    ensures
        s@ == quad_text(g, h),
{
    let mut s = dec_string((g / 256) as u32);
    s.append(dot_str());
    s.append(dec_string((g % 256) as u32).as_str());
    s.append(dot_str());
    s.append(dec_string((h / 256) as u32).as_str());
    s.append(dot_str());
    s.append(dec_string((h % 256) as u32).as_str());
    assert(s@ =~= quad_text(g, h));
    s
}

/// The decimal digit d as a character, for d < 10.
pub open spec fn digit_char(d: nat) -> char {
    if d == 0 {
        '0'
    } else if d == 1 {
        '1'
    } else if d == 2 {
        '2'
    } else if d == 3 {
        '3'
    } else if d == 4 {
        '4'
    } else if d == 5 {
        '5'
    } else if d == 6 {
        '6'
    } else if d == 7 {
        '7'
    } else if d == 8 {
        '8'
    } else {
        '9'
    }
}

/// The lowercase hexadecimal digit d as a character, for d < 16.
pub open spec fn hex_char(d: nat) -> char {
    if d < 10 {
        digit_char(d)
    } else if d == 10 {
        'a'
    } else if d == 11 {
        'b'
    } else if d == 12 {
        'c'
    } else if d == 13 {
        'd'
    } else if d == 14 {
        'e'
    } else {
        'f'
    }
}

/// The decimal rendering of n, without leading zeros.
pub open spec fn dec_of(n: nat) -> Seq<char>
    decreases n,
{
    if n < 10 {
        seq![digit_char(n)]
    } else {
        dec_of(n / 10).push(digit_char(n % 10))
    }
}

/// The lowercase hexadecimal rendering of n, without leading zeros.
pub open spec fn hex_of(n: nat) -> Seq<char>
    decreases n,
{
    if n < 16 {
        seq![hex_char(n)]
    } else {
        hex_of(n / 16).push(hex_char(n % 16))
    }
}

/// Dotted-decimal IPv4 text.
pub open spec fn ipv4_text(a: nat, b: nat, c: nat, d: nat) -> Seq<char> {
    dec_of(a) + seq!['.'] + dec_of(b) + seq!['.'] + dec_of(c) + seq!['.'] + dec_of(d)
}

/// Length of the run of zero segments starting at index i.
pub open spec fn run_len(segs: Seq<u16>, i: int) -> int
    decreases segs.len() - i,
{
    if i >= segs.len() {
        0
    } else if segs[i] != 0 {
        0
    } else {
        1 + run_len(segs, i + 1)
    }
}

/// The leftmost longest zero run at or after index i, as (start, length).
pub open spec fn best_zero_run(segs: Seq<u16>, i: int) -> (int, int)
    decreases segs.len() - i,
{
    if i >= segs.len() {
        (0, 0)
    } else {
        let rest = best_zero_run(segs, i + 1);
        let cur = run_len(segs, i);
        if cur >= rest.1 {
            (i, cur)
        } else {
            rest
        }
    }
}

/// The hex groups segs[lo..hi], joined with ':'.
pub open spec fn hex_groups_text(segs: Seq<u16>, lo: int, hi: int) -> Seq<char>
    decreases hi - lo,
{
    if lo >= hi {
        Seq::empty()
    } else if lo + 1 >= hi {
        hex_of(segs[lo] as nat)
    } else {
        hex_of(segs[lo] as nat) + seq![':'] + hex_groups_text(segs, lo + 1, hi)
    }
}

/// IPv6 text: all eight groups, or the leftmost longest zero run of two or
/// more groups compressed to `::`.
pub open spec fn ipv6_text(segs: Seq<u16>) -> Seq<char> {
    let best = best_zero_run(segs, 0);
    if best.1 < 2 {
        hex_groups_text(segs, 0, segs.len() as int)
    } else {
        hex_groups_text(segs, 0, best.0) + seq![':', ':'] + hex_groups_text(
            segs,
            best.0 + best.1,
            segs.len() as int,
        )
    }
}

/// The two final groups as a dotted quad.
pub open spec fn quad_text(g: u16, h: u16) -> Seq<char> {
    ipv4_text((g / 256) as nat, (g % 256) as nat, (h / 256) as nat, (h % 256) as nat)
}

/// The text of an IPv4-compatible address: `::` and the dotted quad.
pub open spec fn compat_text(g: u16, h: u16) -> Seq<char> {
    seq![':', ':'] + quad_text(g, h)
}

/// The text of an IPv4-mapped address: `::ffff:` and the dotted quad.
pub open spec fn mapped_text(g: u16, h: u16) -> Seq<char> {
    seq![':', ':', 'f', 'f', 'f', 'f', ':'] + quad_text(g, h)
}

/// The text of an address of either family.  IPv4-compatible addresses
/// (other than `::` and `::1`) and IPv4-mapped addresses embed their
/// dotted quad; every other IPv6 address renders in colon-group form.
pub open spec fn ip_text(ip: IpAddress) -> Seq<char> {
    match ip {
        IpAddress::V4(a, b, c, d) => ipv4_text(a as nat, b as nat, c as nat, d as nat),
        IpAddress::V6(s0, s1, s2, s3, s4, s5, s6, s7) => {
            if s0 == 0 && s1 == 0 && s2 == 0 && s3 == 0 && s4 == 0 && s5 == 0 && !(s6 == 0 && (
            s7 == 0 || s7 == 1)) {
                compat_text(s6, s7)
            } else if s0 == 0 && s1 == 0 && s2 == 0 && s3 == 0 && s4 == 0 && s5 == 0xffff {
                mapped_text(s6, s7)
            } else {
                ipv6_text(ip.segments())
            }
        },
    }
}

/// One decimal digit as a string slice.
fn digit_str(d: u8) -> (s: &'static str)
    requires
        d < 10,
    ensures
        s@ =~= seq![digit_char(d as nat)],
{
    proof {
        reveal_strlit("0");
        reveal_strlit("1");
        reveal_strlit("2");
        reveal_strlit("3");
        reveal_strlit("4");
        reveal_strlit("5");
        reveal_strlit("6");
        reveal_strlit("7");
        reveal_strlit("8");
        reveal_strlit("9");
    }
    match d {
        0 => "0",
        1 => "1",
        2 => "2",
        3 => "3",
        4 => "4",
        5 => "5",
        6 => "6",
        7 => "7",
        8 => "8",
        _ => "9",
    }
}

/// One lowercase hexadecimal digit as a string slice.
fn hex_digit_str(d: u8) -> (s: &'static str)
    requires
        d < 16,
    ensures
        s@ =~= seq![hex_char(d as nat)],
{
    if d < 10 {
        digit_str(d)
    } else {
        proof {
            reveal_strlit("a");
            reveal_strlit("b");
            reveal_strlit("c");
            reveal_strlit("d");
            reveal_strlit("e");
            reveal_strlit("f");
        }
        match d {
            10 => "a",
            11 => "b",
            12 => "c",
            13 => "d",
            14 => "e",
            _ => "f",
        }
    }
}

/// A dot as a string slice.
fn dot_str() -> (s: &'static str)
    ensures
        s@ =~= seq!['.'],
{
    proof {
        reveal_strlit(".");
    }
    "."
}

/// A colon as a string slice.
fn colon_str() -> (s: &'static str)
    ensures
        s@ =~= seq![':'],
{
    proof {
        reveal_strlit(":");
    }
    ":"
}

/// Decimal rendering of n.
pub fn dec_string(n: u32) -> (s: String)
    ensures
        s@ == dec_of(n as nat),
    decreases n,
{
    if n < 10 {
        String::from_str(digit_str(n as u8))
    } else {
        let mut s = dec_string(n / 10);
        s.append(digit_str((n % 10) as u8));
        assert(s@ =~= dec_of(n as nat));
        s
    }
}

/// Lowercase hexadecimal rendering of n.
pub fn hex_string(n: u16) -> (s: String)
    ensures
        s@ == hex_of(n as nat),
    decreases n,
{
    if n < 16 {
        String::from_str(hex_digit_str(n as u8))
    } else {
        let mut s = hex_string(n / 16);
        s.append(hex_digit_str((n % 16) as u8));
        assert(s@ =~= hex_of(n as nat));
        s
    }
}

/// Length of the zero run starting at index i.
fn run_len_at(segs: &Vec<u16>, i: usize) -> (r: usize)
    requires
        i <= segs.len(),
    ensures
        r == run_len(segs@, i as int),
        i + r <= segs.len(),
    decreases segs.len() - i,
{
    if i >= segs.len() {
        0
    } else if segs[i] != 0 {
        0
    } else {
        1 + run_len_at(segs, i + 1)
    }
}

/// The leftmost longest zero run at or after index i.
fn best_zero_run_at(segs: &Vec<u16>, i: usize) -> (r: (usize, usize))
    requires
        i <= segs.len(),
    ensures
        (r.0 as int, r.1 as int) == best_zero_run(segs@, i as int),
        r.0 + r.1 <= segs.len(),
    decreases segs.len() - i,
{
    if i >= segs.len() {
        (0, 0)
    } else {
        let rest = best_zero_run_at(segs, i + 1);
        let cur = run_len_at(segs, i);
        if cur >= rest.1 {
            (i, cur)
        } else {
            rest
        }
    }
}

/// The hex groups segs[lo..], joined with ':'.
fn hex_groups_string_from(segs: &Vec<u16>, lo: usize, hi: usize) -> (s: String)
    requires
        lo <= segs.len(),
        hi <= segs.len(),
    ensures
        s@ == hex_groups_text(segs@, lo as int, hi as int),
    decreases segs.len() - lo,
{
    if lo >= hi {
        String::new()
    } else if lo + 1 >= hi {
        hex_string(segs[lo])
    } else {
        let mut s = hex_string(segs[lo]);
        s.append(colon_str());
        let rest = hex_groups_string_from(segs, lo + 1, hi);
        s.append(rest.as_str());
        assert(s@ =~= hex_groups_text(segs@, lo as int, hi as int));
        s
    }
}

/// IPv6 rendering over the eight segments.
fn ipv6_string(segs: &Vec<u16>) -> (s: String)
    ensures
        s@ == ipv6_text(segs@),
{
    let best = best_zero_run_at(segs, 0);
    if best.1 < 2 {
        hex_groups_string_from(segs, 0, segs.len())
    } else {
        let mut s = hex_groups_string_from(segs, 0, best.0);
        s.append(colon_str());
        s.append(colon_str());
        let rest = hex_groups_string_from(segs, best.0 + best.1, segs.len());
        s.append(rest.as_str());
        assert(s@ =~= ipv6_text(segs@));
        s
    }
}

} // verus!

verus! {

/// Numeric value of a decimal digit character; 10 marks a non-digit.
pub open spec fn digit_val(c: char) -> nat {
    if c == '0' {
        0
    } else if c == '1' {
        1
    } else if c == '2' {
        2
    } else if c == '3' {
        3
    } else if c == '4' {
        4
    } else if c == '5' {
        5
    } else if c == '6' {
        6
    } else if c == '7' {
        7
    } else if c == '8' {
        8
    } else if c == '9' {
        9
    } else {
        10
    }
}

/// Numeric value of a hexadecimal digit character; 16 marks a non-digit.
pub open spec fn hex_val(c: char) -> nat {
    if digit_val(c) < 10 {
        digit_val(c)
    } else if c == 'a' || c == 'A' {
        10
    } else if c == 'b' || c == 'B' {
        11
    } else if c == 'c' || c == 'C' {
        12
    } else if c == 'd' || c == 'D' {
        13
    } else if c == 'e' || c == 'E' {
        14
    } else if c == 'f' || c == 'F' {
        15
    } else {
        16
    }
}

pub open spec fn all_digits(s: Seq<char>) -> bool {
    forall|i: int| 0 <= i < s.len() ==> digit_val(s[i]) < 10
}

pub open spec fn all_hex_digits(s: Seq<char>) -> bool {
    forall|i: int| 0 <= i < s.len() ==> hex_val(s[i]) < 16
}

/// The number written in decimal by s (0 for the empty sequence).
pub open spec fn dec_val(s: Seq<char>) -> nat
    decreases s.len(),
{
    if s.len() == 0 {
        0
    } else {
        dec_val(s.drop_last()) * 10 + digit_val(s.last())
    }
}

/// The number written in hexadecimal by s (0 for the empty sequence).
pub open spec fn hexs_val(s: Seq<char>) -> nat
    decreases s.len(),
{
    if s.len() == 0 {
        0
    } else {
        hexs_val(s.drop_last()) * 16 + hex_val(s.last())
    }
}

/// A decimal numeral: nonempty, digits only, no leading zero.
pub open spec fn valid_dec(s: Seq<char>) -> bool {
    0 < s.len() && all_digits(s) && (s.len() > 1 ==> s[0] != '0')
}

/// An IPv4 octet: a numeral of at most three digits valued up to 255.
pub open spec fn parse_octet(s: Seq<char>) -> Option<u8> {
    if valid_dec(s) && s.len() <= 3 && dec_val(s) <= 255 {
        Some(dec_val(s) as u8)
    } else {
        None
    }
}

/// An IPv6 group: one to four hexadecimal digits.
pub open spec fn parse_group(s: Seq<char>) -> Option<u16> {
    if 0 < s.len() <= 4 && all_hex_digits(s) {
        Some(hexs_val(s) as u16)
    } else {
        None
    }
}

/// Index of the first occurrence of c at or after i, or -1.
pub open spec fn first_index_from(s: Seq<char>, c: char, i: int) -> int
    decreases s.len() - i,
{
    if i >= s.len() {
        -1
    } else if s[i] == c {
        i
    } else {
        first_index_from(s, c, i + 1)
    }
}

pub proof fn lemma_first_index_from_bounds(s: Seq<char>, c: char, i: int)
    ensures
        first_index_from(s, c, i) == -1 || i <= first_index_from(s, c, i) < s.len(),
    decreases s.len() - i,
{
    if i < s.len() && s[i] != c {
        lemma_first_index_from_bounds(s, c, i + 1);
    }
}

/// The parts of s[i..], split on c; a separator at the end yields an empty
/// final part.
pub open spec fn split_from(s: Seq<char>, c: char, i: int) -> Seq<Seq<char>>
    decreases s.len() - i,
    via split_from_decreases
{
    let j = first_index_from(s, c, i);
    if j < 0 {
        seq![s.skip(i)]
    } else {
        seq![s.subrange(i, j)] + split_from(s, c, j + 1)
    }
}

#[via_fn]
proof fn split_from_decreases(s: Seq<char>, c: char, i: int) {
    lemma_first_index_from_bounds(s, c, i);
}

/// The parts of s, split on c.
pub open spec fn split_char(s: Seq<char>, c: char) -> Seq<Seq<char>> {
    split_from(s, c, 0)
}

/// Index of the first occurrence of "::" at or after i, or -1.
pub open spec fn first_double_colon(s: Seq<char>, i: int) -> int
    decreases s.len() - i,
{
    if i + 1 >= s.len() {
        -1
    } else if s[i] == ':' && s[i + 1] == ':' {
        i
    } else {
        first_double_colon(s, i + 1)
    }
}

/// The group values of all parts, or None if any part is not a group.
pub open spec fn groups_vals(parts: Seq<Seq<char>>) -> Option<Seq<u16>>
    decreases parts.len(),
{
    if parts.len() == 0 {
        Some(Seq::empty())
    } else {
        match (parse_group(parts[0]), groups_vals(parts.drop_first())) {
            (Some(h), Some(t)) => Some(seq![h] + t),
            _ => None,
        }
    }
}

/// The address with the given eight segments.
pub open spec fn v6_of(vals: Seq<u16>) -> IpAddress {
    IpAddress::V6(vals[0], vals[1], vals[2], vals[3], vals[4], vals[5], vals[6], vals[7])
}

/// IPv4 text: four octets separated by dots.
pub open spec fn parse_ipv4(s: Seq<char>) -> Option<IpAddress> {
    let parts = split_char(s, '.');
    if parts.len() == 4 {
        match (parse_octet(parts[0]), parse_octet(parts[1]), parse_octet(parts[2]), parse_octet(
            parts[3],
        )) {
            (Some(a), Some(b), Some(c), Some(d)) => Some(IpAddress::V4(a, b, c, d)),
            _ => None,
        }
    } else {
        None
    }
}

/// IPv6 text in colon-group form: eight colon-separated groups, or two
/// group lists joined by `::` standing for the elided zero groups.
pub open spec fn parse_ipv6_groups(s: Seq<char>) -> Option<IpAddress> {
    let dc = first_double_colon(s, 0);
    if dc < 0 {
        match groups_vals(split_char(s, ':')) {
            Some(vals) => if vals.len() == 8 {
                Some(v6_of(vals))
            } else {
                None
            },
            None => None,
        }
    } else {
        let left = s.take(dc);
        let right = s.skip(dc + 2);
        let lg = if left.len() == 0 {
            Some(Seq::<u16>::empty())
        } else {
            groups_vals(split_char(left, ':'))
        };
        let rg = if right.len() == 0 {
            Some(Seq::<u16>::empty())
        } else {
            groups_vals(split_char(right, ':'))
        };
        match (lg, rg) {
            (Some(lv), Some(rv)) => if lv.len() + rv.len() <= 7 {
                Some(v6_of(lv + Seq::new((8 - lv.len() - rv.len()) as nat, |k| 0u16) + rv))
            } else {
                None
            },
            _ => None,
        }
    }
}

/// Index of the last occurrence of c, or -1.
pub open spec fn last_index_of(s: Seq<char>, c: char) -> int
    decreases s.len(),
{
    if s.len() == 0 {
        -1
    } else if s.last() == c {
        s.len() - 1
    } else {
        last_index_of(s.drop_last(), c)
    }
}

/// The group two octets form in an embedded dotted quad.
pub open spec fn quad_group(hi: u8, lo: u8) -> u16 {
    ((hi as int) * 256 + (lo as int)) as u16
}

/// IPv6 text: when a dot occurs, the part after the last colon must be a
/// dotted quad standing for the two final groups, and the colon-group form
/// before it (with two zero groups substituted for the quad) supplies the
/// first six; otherwise the plain colon-group form.
pub open spec fn parse_ipv6(s: Seq<char>) -> Option<IpAddress> {
    if first_index_from(s, '.', 0) >= 0 {
        let lc = last_index_of(s, ':');
        if lc < 0 {
            None
        } else {
            match (parse_ipv4(s.skip(lc + 1)), parse_ipv6_groups(
                s.take(lc + 1) + seq!['0', ':', '0'],
            )) {
                (
                    Some(IpAddress::V4(a, b, c, d)),
                    Some(IpAddress::V6(s0, s1, s2, s3, s4, s5, _, _)),
                ) => Some(
                    IpAddress::V6(s0, s1, s2, s3, s4, s5, quad_group(a, b), quad_group(c, d)),
                ),
                _ => None,
            }
        }
    } else {
        parse_ipv6_groups(s)
    }
}

/// An address literal of either family: IPv6 when a colon occurs, IPv4
/// otherwise.
pub open spec fn parse_ip_spec(s: Seq<char>) -> Option<IpAddress> {
    if first_index_from(s, ':', 0) >= 0 {
        parse_ipv6(s)
    } else {
        parse_ipv4(s)
    }
}

} // verus!

verus! {

/// 10^n.
pub open spec fn pow10(n: nat) -> nat
    decreases n,
{
    if n == 0 {
        1
    } else {
        10 * pow10((n - 1) as nat)
    }
}

/// 16^n.
pub open spec fn pow16(n: nat) -> nat
    decreases n,
{
    if n == 0 {
        1
    } else {
        16 * pow16((n - 1) as nat)
    }
}

pub proof fn lemma_dec_val_bound(s: Seq<char>)
    requires
        all_digits(s),
    ensures
        dec_val(s) < pow10(s.len()),
    decreases s.len(),
{
    if s.len() > 0 {
        assert(all_digits(s.drop_last()));
        lemma_dec_val_bound(s.drop_last());
        assert(digit_val(s.last()) <= 9);
    }
}

pub proof fn lemma_hexs_val_bound(s: Seq<char>)
    requires
        all_hex_digits(s),
    ensures
        hexs_val(s) < pow16(s.len()),
    decreases s.len(),
{
    if s.len() > 0 {
        assert(all_hex_digits(s.drop_last()));
        lemma_hexs_val_bound(s.drop_last());
        assert(hex_val(s.last()) <= 15);
    }
}

/// Numeric value of a decimal digit character; 10 marks a non-digit.
fn digit_val_exec(c: char) -> (r: u8)
    ensures
        r as nat == digit_val(c),
{
    match c {
        '0' => 0,
        '1' => 1,
        '2' => 2,
        '3' => 3,
        '4' => 4,
        '5' => 5,
        '6' => 6,
        '7' => 7,
        '8' => 8,
        '9' => 9,
        _ => 10,
    }
}

/// Numeric value of a hexadecimal digit character; 16 marks a non-digit.
fn hex_val_exec(c: char) -> (r: u8)
    ensures
        r as nat == hex_val(c),
{
    let d = digit_val_exec(c);
    if d < 10 {
        d
    } else {
        match c {
            'a' | 'A' => 10,
            'b' | 'B' => 11,
            'c' | 'C' => 12,
            'd' | 'D' => 13,
            'e' | 'E' => 14,
            'f' | 'F' => 15,
            _ => 16,
        }
    }
}

/// The characters of s as a vector.
pub fn str_to_chars(s: &str) -> (v: Vec<char>)
    ensures
        v@ == s@,
{
    let n = s.unicode_len();
    let mut v: Vec<char> = Vec::new();
    let mut i: usize = 0;
    while i < n
        invariant
            i <= n,
            n == s@.len(),
            v@ == s@.subrange(0, i as int),
        decreases n - i,
    {
        let c = s.get_char(i);
        v.push(c);
        assert(v@ =~= s@.subrange(0, i + 1 as int));
        i += 1;
    }
    assert(v@ =~= s@);
    v
}

/// The characters v[lo..hi] as a new vector.
fn sub_chars(v: &Vec<char>, lo: usize, hi: usize) -> (r: Vec<char>)
    requires
        lo <= hi <= v.len(),
    ensures
        r@ == v@.subrange(lo as int, hi as int),
{
    let mut r: Vec<char> = Vec::new();
    let mut i: usize = lo;
    while i < hi
        invariant
            lo <= i <= hi <= v.len(),
            r@ == v@.subrange(lo as int, i as int),
        decreases hi - i,
    {
        r.push(v[i]);
        assert(r@ =~= v@.subrange(lo as int, i + 1 as int));
        i += 1;
    }
    r
}

/// First occurrence of c at or after i, if any.
fn first_index_exec(v: &Vec<char>, c: char, i: usize) -> (r: Option<usize>)
    requires
        i <= v.len(),
    ensures
        match r {
            Some(j) => j == first_index_from(v@, c, i as int) && i <= j < v.len(),
            None => first_index_from(v@, c, i as int) == -1,
        },
    decreases v.len() - i,
{
    if i >= v.len() {
        None
    } else if v[i] == c {
        Some(i)
    } else {
        first_index_exec(v, c, i + 1)
    }
}

/// First occurrence of "::" at or after i, if any.
fn first_double_colon_exec(v: &Vec<char>, i: usize) -> (r: Option<usize>)
    requires
        i <= v.len(),
    ensures
        match r {
            Some(j) => j == first_double_colon(v@, i as int) && i <= j && j + 1 < v.len(),
            None => first_double_colon(v@, i as int) == -1,
        },
    decreases v.len() - i,
{
    if i >= v.len() {
        None
    } else if i + 1 >= v.len() {
        None
    } else if v[i] == ':' && v[i + 1] == ':' {
        Some(i)
    } else {
        first_double_colon_exec(v, i + 1)
    }
}

/// The views of a vector of character vectors.
pub open spec fn views_of(parts: Seq<Vec<char>>) -> Seq<Seq<char>> {
    Seq::new(parts.len(), |k: int| parts[k]@)
}

/// The parts of v[i..], split on c.
fn split_vec_from(v: &Vec<char>, c: char, i: usize) -> (parts: Vec<Vec<char>>)
    requires
        i <= v.len(),
    ensures
        views_of(parts@) == split_from(v@, c, i as int),
    decreases v.len() - i,
{
    match first_index_exec(v, c, i) {
        None => {
            let mut parts: Vec<Vec<char>> = Vec::new();
            parts.push(sub_chars(v, i, v.len()));
            assert(views_of(parts@) =~= seq![v@.skip(i as int)]);
            parts
        },
        Some(j) => {
            let mut parts: Vec<Vec<char>> = Vec::new();
            parts.push(sub_chars(v, i, j));
            let mut rest = split_vec_from(v, c, j + 1);
            let ghost rest_views = views_of(rest@);
            parts.append(&mut rest);
            assert(views_of(parts@) =~= seq![v@.subrange(i as int, j as int)] + rest_views);
            parts
        },
    }
}

/// An IPv4 octet from its characters.
fn parse_octet_exec(part: &Vec<char>) -> (r: Option<u8>)
    ensures
        r == parse_octet(part@),
{
    if part.len() == 0 || part.len() > 3 {
        return None;
    }
    if part.len() > 1 && part[0] == '0' {
        return None;
    }
    let mut acc: u16 = 0;
    let mut i: usize = 0;
    while i < part.len()
        invariant
            i <= part.len() <= 3,
            acc as nat == dec_val(part@.subrange(0, i as int)),
            all_digits(part@.subrange(0, i as int)),
        decreases part.len() - i,
    {
        let d = digit_val_exec(part[i]);
        if d >= 10 {
            assert(!all_digits(part@)) by {
                assert(digit_val(part@[i as int]) >= 10);
            }
            return None;
        }
        proof {
            assert(all_digits(part@.subrange(0, i + 1)));
            lemma_dec_val_bound(part@.subrange(0, i as int));
            assert(pow10(0) == 1);
            assert(pow10(1) == 10);
            assert(pow10(2) == 100);
            assert(part@.subrange(0, i + 1).drop_last() =~= part@.subrange(0, i as int));
            assert(part@.subrange(0, i + 1).last() == part@[i as int]);
        }
        acc = acc * 10 + d as u16;
        i += 1;
    }
    assert(part@.subrange(0, part@.len() as int) =~= part@);
    if acc > 255 {
        None
    } else {
        Some(acc as u8)
    }
}

/// An IPv6 group from its characters.
fn parse_group_exec(part: &Vec<char>) -> (r: Option<u16>)
    ensures
        r == parse_group(part@),
{
    if part.len() == 0 || part.len() > 4 {
        return None;
    }
    let mut acc: u32 = 0;
    let mut i: usize = 0;
    while i < part.len()
        invariant
            i <= part.len() <= 4,
            acc as nat == hexs_val(part@.subrange(0, i as int)),
            all_hex_digits(part@.subrange(0, i as int)),
        decreases part.len() - i,
    {
        let d = hex_val_exec(part[i]);
        if d >= 16 {
            assert(!all_hex_digits(part@)) by {
                assert(hex_val(part@[i as int]) >= 16);
            }
            return None;
        }
        proof {
            assert(all_hex_digits(part@.subrange(0, i + 1)));
            lemma_hexs_val_bound(part@.subrange(0, i as int));
            assert(pow16(0) == 1);
            assert(pow16(1) == 16);
            assert(pow16(2) == 256);
            assert(pow16(3) == 4096);
            assert(part@.subrange(0, i + 1).drop_last() =~= part@.subrange(0, i as int));
            assert(part@.subrange(0, i + 1).last() == part@[i as int]);
        }
        acc = acc * 16 + d as u32;
        i += 1;
    }
    proof {
        assert(part@.subrange(0, part@.len() as int) =~= part@);
        lemma_hexs_val_bound(part@);
        assert(pow16(0) == 1);
        assert(pow16(1) == 16);
        assert(pow16(2) == 256);
        assert(pow16(3) == 4096);
        assert(pow16(4) == 65536);
    }
    Some(acc as u16)
}

/// The group values of parts[i..], or None if any part is not a group.
fn groups_vals_from(parts: &Vec<Vec<char>>, i: usize) -> (r: Option<Vec<u16>>)
    requires
        i <= parts.len(),
    ensures
        match r {
            Some(vals) => groups_vals(views_of(parts@).skip(i as int)) == Some(vals@),
            None => groups_vals(views_of(parts@).skip(i as int)) is None,
        },
    decreases parts.len() - i,
{
    if i == parts.len() {
        assert(views_of(parts@).skip(i as int) =~= Seq::<Seq<char>>::empty());
        Some(Vec::new())
    } else {
        let h = parse_group_exec(&parts[i]);
        let ghost pv = views_of(parts@).skip(i as int);
        proof {
            assert(pv[0] == parts@[i as int]@);
            assert(pv.drop_first() =~= views_of(parts@).skip(i + 1));
        }
        match h {
            None => None,
            Some(hv) => {
                match groups_vals_from(parts, i + 1) {
                    None => None,
                    Some(mut rest) => {
                        rest.insert(0, hv);
                        assert(rest@ =~= seq![hv] + rest@.skip(1));
                        Some(rest)
                    },
                }
            },
        }
    }
}

/// An IPv4 literal from its characters.
fn parse_ipv4_exec(v: &Vec<char>) -> (r: Option<IpAddress>)
    ensures
        r == parse_ipv4(v@),
{
    let parts = split_vec_from(v, '.', 0);
    proof {
        assert(views_of(parts@).len() == parts@.len());
    }
    if parts.len() != 4 {
        return None;
    }
    proof {
        assert(views_of(parts@)[0] == parts@[0]@);
        assert(views_of(parts@)[1] == parts@[1]@);
        assert(views_of(parts@)[2] == parts@[2]@);
        assert(views_of(parts@)[3] == parts@[3]@);
    }
    let a = parse_octet_exec(&parts[0]);
    let b = parse_octet_exec(&parts[1]);
    let c = parse_octet_exec(&parts[2]);
    let d = parse_octet_exec(&parts[3]);
    match (a, b, c, d) {
        (Some(a), Some(b), Some(c), Some(d)) => Some(IpAddress::V4(a, b, c, d)),
        _ => None,
    }
}

/// An IPv6 literal in colon-group form from its characters.
fn parse_ipv6_groups_exec(v: &Vec<char>) -> (r: Option<IpAddress>)
    ensures
        r == parse_ipv6_groups(v@),
{
    match first_double_colon_exec(v, 0) {
        None => {
            let parts = split_vec_from(v, ':', 0);
            assert(views_of(parts@).skip(0) =~= views_of(parts@));
            match groups_vals_from(&parts, 0) {
                None => None,
                Some(vals) => {
                    if vals.len() == 8 {
                        let r = IpAddress::V6(
                            vals[0],
                            vals[1],
                            vals[2],
                            vals[3],
                            vals[4],
                            vals[5],
                            vals[6],
                            vals[7],
                        );
                        assert(r == v6_of(vals@));
                        Some(r)
                    } else {
                        None
                    }
                },
            }
        },
        Some(dc) => {
            let left = sub_chars(v, 0, dc);
            let right = sub_chars(v, dc + 2, v.len());
            assert(left@ == v@.take(dc as int));
            assert(right@ == v@.skip(dc + 2));
            let lvals: Option<Vec<u16>> = if left.len() == 0 {
                assert(left@ =~= Seq::<char>::empty());
                Some(Vec::new())
            } else {
                let lparts = split_vec_from(&left, ':', 0);
                assert(views_of(lparts@).skip(0) =~= views_of(lparts@));
                groups_vals_from(&lparts, 0)
            };
            let rvals: Option<Vec<u16>> = if right.len() == 0 {
                assert(right@ =~= Seq::<char>::empty());
                Some(Vec::new())
            } else {
                let rparts = split_vec_from(&right, ':', 0);
                assert(views_of(rparts@).skip(0) =~= views_of(rparts@));
                groups_vals_from(&rparts, 0)
            };
            match (lvals, rvals) {
                (Some(lv), Some(rv)) => {
                    if lv.len() <= 7 && rv.len() <= 7 - lv.len() {
                        let zeros: usize = 8 - lv.len() - rv.len();
                        let mut vals: Vec<u16> = Vec::new();
                        let mut i: usize = 0;
                        while i < lv.len()
                            invariant
                                i <= lv.len(),
                                vals@ == lv@.subrange(0, i as int),
                            decreases lv.len() - i,
                        {
                            vals.push(lv[i]);
                            assert(vals@ =~= lv@.subrange(0, i + 1 as int));
                            i += 1;
                        }
                        assert(vals@ =~= lv@);
                        let mut k: usize = 0;
                        while k < zeros
                            invariant
                                k <= zeros,
                                vals@ == lv@ + Seq::new(k as nat, |x: int| 0u16),
                            decreases zeros - k,
                        {
                            vals.push(0u16);
                            assert(vals@ =~= lv@ + Seq::new((k + 1) as nat, |x: int| 0u16));
                            k += 1;
                        }
                        let mut j: usize = 0;
                        while j < rv.len()
                            invariant
                                j <= rv.len(),
                                vals@ == lv@ + Seq::new(zeros as nat, |x: int| 0u16) + rv@.subrange(
                                    0,
                                    j as int,
                                ),
                            decreases rv.len() - j,
                        {
                            vals.push(rv[j]);
                            assert(vals@ =~= lv@ + Seq::new(zeros as nat, |x: int| 0u16)
                                + rv@.subrange(0, j + 1 as int));
                            j += 1;
                        }
                        assert(vals@ =~= lv@ + Seq::new(zeros as nat, |x: int| 0u16) + rv@);
                        let r = IpAddress::V6(
                            vals[0],
                            vals[1],
                            vals[2],
                            vals[3],
                            vals[4],
                            vals[5],
                            vals[6],
                            vals[7],
                        );
                        assert(r == v6_of(vals@));
                        Some(r)
                    } else {
                        None
                    }
                },
                _ => None,
            }
        },
    }
}

/// Reads an address literal of either family; returns exactly what
/// `parse_ip_spec` gives for the text.
pub fn parse_ip(s: &str) -> (r: Option<IpAddress>)
    ensures
        r == parse_ip_spec(s@),
{
    let v = str_to_chars(s);
    match first_index_exec(&v, ':', 0) {
        Some(_) => parse_ipv6_exec(&v),
        None => parse_ipv4_exec(&v),
    }
}

} // verus!

verus! {

/// The parts of v, split on '/'.
pub fn split_slash(v: &Vec<char>) -> (parts: Vec<Vec<char>>)
    ensures
        views_of(parts@) == split_char(v@, '/'),
{
    split_vec_from(v, '/', 0)
}

/// Reads an address literal of either family from its characters.
pub fn parse_ip_chars(v: &Vec<char>) -> (r: Option<IpAddress>)
    ensures
        r == parse_ip_spec(v@),
{
    match first_index_exec(v, ':', 0) {
        Some(_) => parse_ipv6_exec(v),
        None => parse_ipv4_exec(v),
    }
}

/// Reads a prefix length: a decimal numeral of at most three digits valued
/// up to 255.
pub fn parse_prefix_len(v: &Vec<char>) -> (r: Option<u8>)
    ensures
        r == parse_octet(v@),
{
    parse_octet_exec(v)
}

} // verus!

verus! {

/// Characters an address text can consist of.
pub open spec fn ip_char_ok(c: char) -> bool {
    hex_val(c) < 16 || c == '.' || c == ':'
}

pub proof fn lemma_digit_char_val(d: nat)
    requires
        d < 10,
    ensures
        digit_val(digit_char(d)) == d,
        hex_val(digit_char(d)) == d,
        digit_char(d) != '.',
        digit_char(d) != ':',
        digit_char(d) != '/',
        digit_char(d) != '-',
        ip_char_ok(digit_char(d)),
{
}

pub proof fn lemma_hex_char_val(d: nat)
    requires
        d < 16,
    ensures
        hex_val(hex_char(d)) == d,
        hex_char(d) != '.',
        hex_char(d) != ':',
        hex_char(d) != '/',
        hex_char(d) != '-',
        ip_char_ok(hex_char(d)),
{
    if d < 10 {
        lemma_digit_char_val(d);
    }
}

/// The decimal rendering reads back as the same number, is made of digits,
/// has no leading zero, and its length is bounded by the number's size.
pub proof fn lemma_dec_of_roundtrip(n: nat)
    ensures
        dec_of(n).len() >= 1,
        all_digits(dec_of(n)),
        dec_val(dec_of(n)) == n,
        n >= 1 ==> dec_of(n)[0] != '0',
        valid_dec(dec_of(n)),
        forall|k: int| 0 <= k < dec_of(n).len() ==> ip_char_ok(#[trigger] dec_of(n)[k])
            && dec_of(n)[k] != '.' && dec_of(n)[k] != ':' && dec_of(n)[k] != '/' && dec_of(
            n,
        )[k] != '-',
    decreases n,
{
    if n < 10 {
        lemma_digit_char_val(n);
        assert(dec_of(n).drop_last() =~= Seq::<char>::empty());
        assert(dec_of(n).last() == digit_char(n));
        assert(dec_val(Seq::<char>::empty()) == 0);
        assert(dec_val(dec_of(n)) == 0 * 10 + digit_val(digit_char(n)));
        if n == 0 {
        } else {
            assert(digit_char(n) != '0');
        }
    } else {
        lemma_dec_of_roundtrip(n / 10);
        lemma_digit_char_val(n % 10);
        let p = dec_of(n / 10);
        let s = p.push(digit_char(n % 10));
        assert(s.drop_last() =~= p);
        assert(s.last() == digit_char(n % 10));
        assert(dec_val(s) == dec_val(p) * 10 + digit_val(digit_char(n % 10)));
        assert(dec_val(s) == (n / 10) * 10 + n % 10);
        assert((n / 10) * 10 + n % 10 == n) by (nonlinear_arith);
        assert(s[0] == p[0]);
        assert(all_digits(s)) by {
            assert(forall|k: int| 0 <= k < p.len() ==> s[k] == p[k]);
        }
        assert(forall|k: int| 0 <= k < s.len() - 1 ==> s[k] == p[k]);
    }
}

/// The length of a decimal rendering is bounded by the exponent.
pub proof fn lemma_dec_of_len(n: nat, k: nat)
    requires
        k >= 1,
        n < pow10(k),
    ensures
        dec_of(n).len() <= k,
    decreases n,
{
    if n < 10 {
    } else {
        assert(k >= 2) by {
            assert(pow10(0) == 1);
            assert(pow10(1) == 10);
            if k == 1 {
                assert(false);
            }
        }
        assert(n / 10 < pow10((k - 1) as nat)) by {
            assert(pow10(k) == 10 * pow10((k - 1) as nat));
            assert(n < 10 * pow10((k - 1) as nat));
            assert(n / 10 < pow10((k - 1) as nat)) by (nonlinear_arith)
                requires
                    n < 10 * pow10((k - 1) as nat),
            ;
        }
        lemma_dec_of_len(n / 10, (k - 1) as nat);
    }
}

/// An octet's rendering parses back to the octet.
pub proof fn lemma_octet_roundtrip(n: nat)
    requires
        n <= 255,
    ensures
        parse_octet(dec_of(n)) == Some(n as u8),
{
    lemma_dec_of_roundtrip(n);
    assert(pow10(0) == 1);
    assert(pow10(1) == 10);
    assert(pow10(2) == 100);
    assert(pow10(3) == 1000);
    lemma_dec_of_len(n, 3);
}

/// The hexadecimal rendering reads back as the same number.
pub proof fn lemma_hex_of_roundtrip(n: nat)
    ensures
        hex_of(n).len() >= 1,
        all_hex_digits(hex_of(n)),
        hexs_val(hex_of(n)) == n,
        forall|k: int| 0 <= k < hex_of(n).len() ==> ip_char_ok(#[trigger] hex_of(n)[k])
            && hex_of(n)[k] != ':' && hex_of(n)[k] != '.' && hex_of(n)[k] != '/' && hex_of(
            n,
        )[k] != '-',
    decreases n,
{
    if n < 16 {
        lemma_hex_char_val(n);
        assert(hex_of(n).drop_last() =~= Seq::<char>::empty());
        assert(hex_of(n).last() == hex_char(n));
        assert(hexs_val(Seq::<char>::empty()) == 0);
        assert(hexs_val(hex_of(n)) == 0 * 16 + hex_val(hex_char(n)));
    } else {
        lemma_hex_of_roundtrip(n / 16);
        lemma_hex_char_val(n % 16);
        let p = hex_of(n / 16);
        let s = p.push(hex_char(n % 16));
        assert(s.drop_last() =~= p);
        assert(s.last() == hex_char(n % 16));
        assert(hexs_val(s) == hexs_val(p) * 16 + hex_val(hex_char(n % 16)));
        assert(hexs_val(s) == (n / 16) * 16 + n % 16);
        assert((n / 16) * 16 + n % 16 == n) by (nonlinear_arith);
        assert(all_hex_digits(s)) by {
            assert(forall|k: int| 0 <= k < p.len() ==> s[k] == p[k]);
        }
        assert(forall|k: int| 0 <= k < s.len() - 1 ==> s[k] == p[k]);
    }
}

/// The length of a hexadecimal rendering is bounded by the exponent.
pub proof fn lemma_hex_of_len(n: nat, k: nat)
    requires
        k >= 1,
        n < pow16(k),
    ensures
        hex_of(n).len() <= k,
    decreases n,
{
    if n < 16 {
    } else {
        assert(k >= 2) by {
            assert(pow16(0) == 1);
            assert(pow16(1) == 16);
            if k == 1 {
                assert(false);
            }
        }
        assert(n / 16 < pow16((k - 1) as nat)) by {
            assert(pow16(k) == 16 * pow16((k - 1) as nat));
            assert(n / 16 < pow16((k - 1) as nat)) by (nonlinear_arith)
                requires
                    n < 16 * pow16((k - 1) as nat),
            ;
        }
        lemma_hex_of_len(n / 16, (k - 1) as nat);
    }
}

/// A group's rendering parses back to the group.
pub proof fn lemma_group_roundtrip(n: u16)
    ensures
        parse_group(hex_of(n as nat)) == Some(n),
{
    lemma_hex_of_roundtrip(n as nat);
    assert(pow16(0) == 1);
    assert(pow16(1) == 16);
    assert(pow16(2) == 256);
    assert(pow16(3) == 4096);
    assert(pow16(4) == 65536);
    lemma_hex_of_len(n as nat, 4);
}

/// When no occurrence exists at or after i, the search reports none.
pub proof fn lemma_first_index_absent(s: Seq<char>, c: char, i: int)
    requires
        forall|k: int| 0 <= k < s.len() ==> s[k] != c,
        0 <= i,
    ensures
        first_index_from(s, c, i) == -1,
    decreases s.len() - i,
{
    if i < s.len() {
        lemma_first_index_absent(s, c, i + 1);
    }
}

/// Searching from an offset is searching the suffix.
pub proof fn lemma_first_index_offset(s: Seq<char>, c: char, j: int)
    requires
        0 <= j <= s.len(),
    ensures
        first_index_from(s, c, j) == if first_index_from(s.skip(j), c, 0) == -1 {
            -1
        } else {
            j + first_index_from(s.skip(j), c, 0)
        },
    decreases s.len() - j,
{
    lemma_first_index_offset_step(s, c, j, j);
}

/// Searching s from i equals searching the suffix at j from i - j.
proof fn lemma_first_index_offset_step(s: Seq<char>, c: char, j: int, i: int)
    requires
        0 <= j <= i <= s.len(),
    ensures
        first_index_from(s, c, i) == if first_index_from(s.skip(j), c, i - j) == -1 {
            -1
        } else {
            j + first_index_from(s.skip(j), c, i - j)
        },
    decreases s.len() - i,
{
    if i >= s.len() {
    } else {
        assert(s.skip(j)[i - j] == s[i]);
        if s[i] == c {
        } else {
            lemma_first_index_offset_step(s, c, j, i + 1);
        }
    }
}

/// Splitting from an offset is splitting the suffix.
pub proof fn lemma_split_from_offset(s: Seq<char>, c: char, j: int)
    requires
        0 <= j <= s.len(),
    ensures
        split_from(s, c, j) == split_char(s.skip(j), c),
    decreases s.len() - j,
{
    let t = s.skip(j);
    lemma_first_index_offset(s, c, j);
    lemma_first_index_from_bounds(s, c, j);
    lemma_first_index_from_bounds(t, c, 0);
    let fi = first_index_from(s, c, j);
    let ft = first_index_from(t, c, 0);
    if ft == -1 {
        assert(s.skip(j) =~= t.skip(0));
        assert(split_from(s, c, j) =~= seq![t.skip(0)]);
    } else {
        assert(fi == j + ft);
        assert(s.subrange(j, fi) =~= t.subrange(0, ft));
        lemma_split_from_offset(s, c, fi + 1);
        assert(s.skip(fi + 1) =~= t.skip(ft + 1));
        lemma_split_from_offset(t, c, ft + 1);
        assert(split_from(s, c, j) =~= seq![t.subrange(0, ft)] + split_from(t, c, ft + 1));
    }
}

/// A separator-free text splits into itself alone.
pub proof fn lemma_split_nosep(x: Seq<char>, c: char)
    requires
        forall|k: int| 0 <= k < x.len() ==> x[k] != c,
    ensures
        split_char(x, c) == seq![x],
{
    lemma_first_index_absent(x, c, 0);
    assert(x.skip(0) =~= x);
    assert(split_char(x, c) =~= seq![x]);
}

/// Splitting at the first separator peels the first part off.
pub proof fn lemma_split_sep(x: Seq<char>, c: char, rest: Seq<char>)
    requires
        forall|k: int| 0 <= k < x.len() ==> x[k] != c,
    ensures
        split_char(x + seq![c] + rest, c) == seq![x] + split_char(rest, c),
{
    let s = x + seq![c] + rest;
    assert(s[x.len() as int] == c);
    assert(forall|k: int| 0 <= k < x.len() ==> s[k] == x[k]);
    assert(first_index_from(s, c, 0) == x.len()) by {
        lemma_first_index_at(s, c, 0, x.len() as int);
    }
    assert(s.subrange(0, x.len() as int) =~= x);
    lemma_split_from_offset(s, c, x.len() as int + 1);
    assert(s.skip(x.len() as int + 1) =~= rest);
    assert(split_char(s, c) =~= seq![x] + split_char(rest, c));
}

/// The first occurrence at or after i is the first index with the
/// character and nothing before it.
proof fn lemma_first_index_at(s: Seq<char>, c: char, i: int, at: int)
    requires
        0 <= i <= at < s.len(),
        s[at] == c,
        forall|k: int| i <= k < at ==> s[k] != c,
    ensures
        first_index_from(s, c, i) == at,
    decreases at - i,
{
    if i < at {
        lemma_first_index_at(s, c, i + 1, at);
    }
}

/// An IPv4 rendering parses back to the address.
#[verifier::rlimit(100)]
#[verifier::spinoff_prover]
pub proof fn lemma_ipv4_roundtrip(a: u8, b: u8, c: u8, d: u8)
    ensures
        parse_ip_spec(ipv4_text(a as nat, b as nat, c as nat, d as nat)) == Some(
            IpAddress::V4(a, b, c, d),
        ),
        forall|k: int|
            0 <= k < ipv4_text(a as nat, b as nat, c as nat, d as nat).len() ==> ip_char_ok(
                #[trigger] ipv4_text(a as nat, b as nat, c as nat, d as nat)[k],
            ) && ipv4_text(a as nat, b as nat, c as nat, d as nat)[k] != ':' && ipv4_text(
                a as nat,
                b as nat,
                c as nat,
                d as nat,
            )[k] != '/',
{
    let ta = dec_of(a as nat);
    let tb = dec_of(b as nat);
    let tc = dec_of(c as nat);
    let td = dec_of(d as nat);
    let s = ipv4_text(a as nat, b as nat, c as nat, d as nat);
    lemma_dec_of_roundtrip(a as nat);
    lemma_dec_of_roundtrip(b as nat);
    lemma_dec_of_roundtrip(c as nat);
    lemma_dec_of_roundtrip(d as nat);
    assert forall|k: int| 0 <= k < s.len() implies ip_char_ok(#[trigger] s[k]) && s[k] != ':'
        && s[k] != '/' by {
        let la = ta.len() as int;
        let lb = tb.len() as int;
        let lc = tc.len() as int;
        if k < la {
            assert(s[k] == ta[k]);
        } else if k == la {
            assert(s[k] == '.');
        } else if k < la + 1 + lb {
            assert(s[k] == tb[k - la - 1]);
        } else if k == la + 1 + lb {
            assert(s[k] == '.');
        } else if k < la + 1 + lb + 1 + lc {
            assert(s[k] == tc[k - la - 1 - lb - 1]);
        } else if k == la + 1 + lb + 1 + lc {
            assert(s[k] == '.');
        } else {
            assert(s[k] == td[k - la - 1 - lb - 1 - lc - 1]);
        }
    }
    lemma_first_index_absent(s, ':', 0);
    assert(s =~= ta + seq!['.'] + (tb + seq!['.'] + (tc + seq!['.'] + td)));
    lemma_split_sep(ta, '.', tb + seq!['.'] + (tc + seq!['.'] + td));
    lemma_split_sep(tb, '.', tc + seq!['.'] + td);
    lemma_split_sep(tc, '.', td);
    lemma_split_nosep(td, '.');
    let parts = split_char(s, '.');
    assert(parts =~= seq![ta, tb, tc, td]);
    lemma_octet_roundtrip(a as nat);
    lemma_octet_roundtrip(b as nat);
    lemma_octet_roundtrip(c as nat);
    lemma_octet_roundtrip(d as nat);
}

} // verus!

verus! {

/// No two adjacent colons anywhere.
pub open spec fn no_double_colon(s: Seq<char>) -> bool {
    forall|k: int| 0 <= k < s.len() - 1 ==> !((#[trigger] s[k]) == ':' && s[k + 1] == ':')
}

/// A joined group text is nonempty, starts and ends with a hex digit, has
/// no adjacent colons, and consists of hex digits and colons.
pub proof fn lemma_groups_text_shape(segs: Seq<u16>, lo: int, hi: int)
    requires
        0 <= lo < hi <= segs.len(),
    ensures
        hex_groups_text(segs, lo, hi).len() >= 1,
        hex_groups_text(segs, lo, hi)[0] != ':',
        hex_groups_text(segs, lo, hi).last() != ':',
        no_double_colon(hex_groups_text(segs, lo, hi)),
        forall|k: int|
            0 <= k < hex_groups_text(segs, lo, hi).len() ==> ip_char_ok(
                #[trigger] hex_groups_text(segs, lo, hi)[k],
            ) && hex_groups_text(segs, lo, hi)[k] != '.' && hex_groups_text(segs, lo, hi)[k]
                != '/',
    decreases hi - lo,
{
    let h = hex_of(segs[lo] as nat);
    lemma_hex_of_roundtrip(segs[lo] as nat);
    if lo + 1 >= hi {
        assert(hex_groups_text(segs, lo, hi) == h);
        assert(forall|k: int| 0 <= k < h.len() ==> hex_val(#[trigger] h[k]) < 16);
        assert(h[0] != ':' && h.last() != ':');
    } else {
        lemma_groups_text_shape(segs, lo + 1, hi);
        let rest = hex_groups_text(segs, lo + 1, hi);
        let t = h + seq![':'] + rest;
        assert(hex_groups_text(segs, lo, hi) == t);
        let hl = h.len() as int;
        assert(forall|k: int| 0 <= k < hl ==> t[k] == h[k]);
        assert(t[hl] == ':');
        assert(forall|k: int| 0 <= k < rest.len() ==> t[hl + 1 + k] == rest[k]);
        assert(t[0] == h[0]);
        assert(t.last() == rest.last());
        assert forall|k: int| 0 <= k < t.len() - 1 implies !((#[trigger] t[k]) == ':' && t[k + 1]
            == ':') by {
            if k < hl {
                assert(t[k] == h[k]);
            } else if k == hl {
                assert(t[k + 1] == rest[0]);
            } else {
                assert(t[k] == rest[k - hl - 1] && t[k + 1] == rest[k - hl]);
            }
        }
        assert forall|k: int| 0 <= k < t.len() implies ip_char_ok(#[trigger] t[k]) && t[k]
            != '.' && t[k] != '/' by {
            if k < hl {
                assert(t[k] == h[k]);
            } else if k == hl {
            } else {
                assert(t[k] == rest[k - hl - 1]);
            }
        }
    }
}

/// Without adjacent colons the search for "::" reports none.
pub proof fn lemma_fdc_absent(s: Seq<char>, i: int)
    requires
        no_double_colon(s),
        0 <= i,
    ensures
        first_double_colon(s, i) == -1,
    decreases s.len() - i,
{
    if i + 1 < s.len() {
        lemma_fdc_absent(s, i + 1);
    }
}

/// The search finds the position of the first adjacent pair.
proof fn lemma_fdc_scan(s: Seq<char>, i: int, at: int)
    requires
        0 <= i <= at,
        at + 1 < s.len(),
        s[at] == ':' && s[at + 1] == ':',
        forall|k: int| i <= k < at ==> !((#[trigger] s[k]) == ':' && s[k + 1] == ':'),
    ensures
        first_double_colon(s, i) == at,
    decreases at - i,
{
    if i < at {
        lemma_fdc_scan(s, i + 1, at);
    }
}

/// If the search reports none, no occurrence exists at or after i.
pub proof fn lemma_first_index_none(s: Seq<char>, c: char, i: int)
    requires
        0 <= i,
        first_index_from(s, c, i) == -1,
    ensures
        forall|k: int| i <= k < s.len() ==> s[k] != c,
    decreases s.len() - i,
{
    if i < s.len() {
        lemma_first_index_none(s, c, i + 1);
    }
}

/// A joined group text splits back into the group renderings.
pub proof fn lemma_split_groups(segs: Seq<u16>, lo: int, hi: int)
    requires
        0 <= lo < hi <= segs.len(),
    ensures
        split_char(hex_groups_text(segs, lo, hi), ':') == Seq::new(
            (hi - lo) as nat,
            |t: int| hex_of(segs[lo + t] as nat),
        ),
    decreases hi - lo,
{
    let h = hex_of(segs[lo] as nat);
    lemma_hex_of_roundtrip(segs[lo] as nat);
    if lo + 1 >= hi {
        lemma_split_nosep(h, ':');
        assert(seq![h] =~= Seq::new((hi - lo) as nat, |t: int| hex_of(segs[lo + t] as nat)));
    } else {
        lemma_split_groups(segs, lo + 1, hi);
        let rest = hex_groups_text(segs, lo + 1, hi);
        lemma_split_sep(h, ':', rest);
        assert(seq![h] + Seq::new((hi - lo - 1) as nat, |t: int| hex_of(segs[lo + 1 + t] as nat))
            =~= Seq::new((hi - lo) as nat, |t: int| hex_of(segs[lo + t] as nat)));
    }
}

/// The group renderings read back as the segments.
pub proof fn lemma_groups_vals_texts(segs: Seq<u16>, lo: int, hi: int)
    requires
        0 <= lo <= hi <= segs.len(),
    ensures
        groups_vals(Seq::new((hi - lo) as nat, |t: int| hex_of(segs[lo + t] as nat))) == Some(
            segs.subrange(lo, hi),
        ),
    decreases hi - lo,
{
    let parts = Seq::new((hi - lo) as nat, |t: int| hex_of(segs[lo + t] as nat));
    if lo == hi {
        assert(segs.subrange(lo, hi) =~= Seq::<u16>::empty());
    } else {
        lemma_group_roundtrip(segs[lo]);
        lemma_groups_vals_texts(segs, lo + 1, hi);
        assert(parts[0] == hex_of(segs[lo] as nat));
        assert(parts.drop_first() =~= Seq::new(
            (hi - lo - 1) as nat,
            |t: int| hex_of(segs[lo + 1 + t] as nat),
        ));
        assert(seq![segs[lo]] + segs.subrange(lo + 1, hi) =~= segs.subrange(lo, hi));
    }
}

/// The zero run starting at i is in range and covers only zeros.
pub proof fn lemma_run_len_zeros(segs: Seq<u16>, i: int)
    requires
        0 <= i <= segs.len(),
    ensures
        0 <= run_len(segs, i),
        i + run_len(segs, i) <= segs.len(),
        forall|t: int| i <= t < i + run_len(segs, i) ==> segs[t] == 0,
    decreases segs.len() - i,
{
    if i < segs.len() && segs[i] == 0 {
        lemma_run_len_zeros(segs, i + 1);
    }
}

/// A nonempty best run starts in range and has its stated length.
pub proof fn lemma_best_props(segs: Seq<u16>, i: int)
    requires
        0 <= i,
    ensures
        best_zero_run(segs, i).1 > 0 ==> i <= best_zero_run(segs, i).0 < segs.len()
            && best_zero_run(segs, i).1 == run_len(segs, best_zero_run(segs, i).0),
    decreases segs.len() - i,
{
    if i < segs.len() {
        lemma_best_props(segs, i + 1);
    }
}

/// An IPv6 rendering parses back to the address, and consists of hex
/// digits and colons.
#[verifier::rlimit(100)]
#[verifier::spinoff_prover]
pub proof fn lemma_ipv6_roundtrip(segs: Seq<u16>)
    requires
        segs.len() == 8,
    ensures
        parse_ip_spec(ipv6_text(segs)) == Some(v6_of(segs)),
        forall|k: int|
            0 <= k < ipv6_text(segs).len() ==> ip_char_ok(#[trigger] ipv6_text(segs)[k])
                && ipv6_text(segs)[k] != '.' && ipv6_text(segs)[k] != '/',
{
    let best = best_zero_run(segs, 0);
    lemma_best_props(segs, 0);
    let s = ipv6_text(segs);
    if best.1 < 2 {
        lemma_groups_text_shape(segs, 0, 8);
        assert(s == hex_groups_text(segs, 0, 8));
        lemma_fdc_absent(s, 0);
        let h0 = hex_of(segs[0] as nat);
        lemma_hex_of_roundtrip(segs[0] as nat);
        assert(s == h0 + seq![':'] + hex_groups_text(segs, 1, 8));
        assert(s[h0.len() as int] == ':');
        assert(first_index_from(s, ':', 0) >= 0) by {
            lemma_first_index_from_bounds(s, ':', 0);
            if first_index_from(s, ':', 0) == -1 {
                lemma_first_index_none(s, ':', 0);
                assert(s[h0.len() as int] != ':');
                assert(false);
            }
        }
        lemma_split_groups(segs, 0, 8);
        lemma_groups_vals_texts(segs, 0, 8);
        assert(segs.subrange(0, 8) =~= segs);
        lemma_first_index_absent(s, '.', 0);
    } else {
        let bs = best.0;
        let bl = best.1;
        lemma_run_len_zeros(segs, bs);
        let lpart = hex_groups_text(segs, 0, bs);
        let rpart = hex_groups_text(segs, bs + bl, 8);
        assert(s == lpart + seq![':', ':'] + rpart);
        if bs > 0 {
            lemma_groups_text_shape(segs, 0, bs);
        } else {
            assert(lpart =~= Seq::<char>::empty());
        }
        if bs + bl < 8 {
            lemma_groups_text_shape(segs, bs + bl, 8);
        } else {
            assert(rpart =~= Seq::<char>::empty());
        }
        let ll = lpart.len() as int;
        assert(forall|k: int| 0 <= k < ll ==> s[k] == lpart[k]);
        assert(s[ll] == ':' && s[ll + 1] == ':');
        assert(forall|k: int| 0 <= k < rpart.len() ==> s[ll + 2 + k] == rpart[k]);
        assert(first_double_colon(s, 0) == ll) by {
            assert(forall|k: int| 0 <= k < ll ==> !((#[trigger] s[k]) == ':' && s[k + 1] == ':')) by {
                assert forall|k: int| 0 <= k < ll implies !((#[trigger] s[k]) == ':' && s[k + 1] == ':') by {
                    if k < ll - 1 {
                        assert(s[k] == lpart[k] && s[k + 1] == lpart[k + 1]);
                    } else {
                        assert(s[k] == lpart[ll - 1]);
                        assert(lpart[ll - 1] == lpart.last());
                    }
                }
            }
            lemma_fdc_scan(s, 0, ll);
        }
        assert(first_index_from(s, ':', 0) >= 0) by {
            lemma_first_index_from_bounds(s, ':', 0);
            if first_index_from(s, ':', 0) == -1 {
                lemma_first_index_none(s, ':', 0);
                assert(s[ll] != ':');
                assert(false);
            }
        }
        let left = s.take(ll);
        let right = s.skip(ll + 2);
        assert(left =~= lpart);
        assert(right =~= rpart);
        let lv: Seq<u16> = segs.subrange(0, bs);
        let rv: Seq<u16> = segs.subrange(bs + bl, 8);
        if bs > 0 {
            lemma_split_groups(segs, 0, bs);
            lemma_groups_vals_texts(segs, 0, bs);
        } else {
            assert(lv =~= Seq::<u16>::empty());
        }
        if bs + bl < 8 {
            lemma_split_groups(segs, bs + bl, 8);
            lemma_groups_vals_texts(segs, bs + bl, 8);
        } else {
            assert(rv =~= Seq::<u16>::empty());
        }
        assert(lv.len() + rv.len() == 8 - bl);
        let recon = lv + Seq::new((8 - lv.len() - rv.len()) as nat, |k: int| 0u16) + rv;
        assert(recon =~= segs) by {
            assert(forall|t: int| bs <= t < bs + bl ==> segs[t] == 0);
        }
        assert(parse_ipv6_groups(s) == Some(v6_of(recon)));
        assert(v6_of(recon) == v6_of(segs));
        assert forall|k: int| 0 <= k < s.len() implies ip_char_ok(#[trigger] s[k]) && s[k]
            != '.' && s[k] != '/' by {
            if k < ll {
                assert(s[k] == lpart[k]);
            } else if k <= ll + 1 {
                assert(s[k] == ':');
            } else {
                assert(s[k] == rpart[k - ll - 2]);
            }
        }
        lemma_first_index_absent(s, '.', 0);
    }
}

/// An address's rendering parses back to the address, and consists of
/// characters no other text of the engine uses as a separator.
pub proof fn lemma_ip_text_roundtrip(ip: IpAddress)
    ensures
        parse_ip_spec(ip_text(ip)) == Some(ip),
        forall|k: int|
            0 <= k < ip_text(ip).len() ==> ip_char_ok(#[trigger] ip_text(ip)[k]) && ip_text(
                ip,
            )[k] != '/',
{
    match ip {
        IpAddress::V4(a, b, c, d) => {
            lemma_ipv4_roundtrip(a, b, c, d);
        },
        IpAddress::V6(s0, s1, s2, s3, s4, s5, s6, s7) => {
            if s0 == 0 && s1 == 0 && s2 == 0 && s3 == 0 && s4 == 0 && s5 == 0 && !(s6 == 0 && (
            s7 == 0 || s7 == 1)) {
                lemma_v6_compat_roundtrip(s6, s7);
            } else if s0 == 0 && s1 == 0 && s2 == 0 && s3 == 0 && s4 == 0 && s5 == 0xffff {
                lemma_v6_mapped_roundtrip(s6, s7);
            } else {
                lemma_ipv6_roundtrip(ip.segments());
                assert(v6_of(ip.segments()) == ip);
            }
        },
    }
}

} // verus!

verus! {

/// The position of the last occurrence of c among v[..n], if any.
fn last_index_upto(v: &Vec<char>, c: char, n: usize) -> (r: Option<usize>)
    requires
        n <= v.len(),
    ensures
        match r {
            Some(i) => last_index_of(v@.subrange(0, n as int), c) == i && i < n,
            None => last_index_of(v@.subrange(0, n as int), c) == -1,
        },
    decreases n,
{
    if n == 0 {
        assert(v@.subrange(0, 0) =~= Seq::<char>::empty());
        None
    } else {
        proof {
            assert(v@.subrange(0, n as int).last() == v@[n - 1]);
            assert(v@.subrange(0, n as int).drop_last() =~= v@.subrange(0, n - 1));
        }
        if v[n - 1] == c {
            Some(n - 1)
        } else {
            last_index_upto(v, c, n - 1)
        }
    }
}

/// An IPv6 literal from its characters, embedded dotted quad included.
fn parse_ipv6_exec(v: &Vec<char>) -> (r: Option<IpAddress>)
    ensures
        r == parse_ipv6(v@),
{
    match first_index_exec(v, '.', 0) {
        None => parse_ipv6_groups_exec(v),
        Some(_) => {
            assert(v@.subrange(0, v@.len() as int) =~= v@);
            match last_index_upto(v, ':', v.len()) {
                None => None,
                Some(lc) => {
                    let quad = sub_chars(v, lc + 1, v.len());
                    assert(quad@ =~= v@.skip(lc + 1));
                    match parse_ipv4_exec(&quad) {
                        None => None,
                        Some(ipq) => match ipq {
                            IpAddress::V4(a, b, c, d) => {
                                let mut hv = sub_chars(v, 0, lc + 1);
                                hv.push('0');
                                hv.push(':');
                                hv.push('0');
                                assert(hv@ =~= v@.take(lc + 1 as int) + seq!['0', ':', '0']);
                                match parse_ipv6_groups_exec(&hv) {
                                    Some(IpAddress::V6(s0, s1, s2, s3, s4, s5, _, _)) => {
                                        let g6 = (a as u16) * 256 + (b as u16);
                                        let g7 = (c as u16) * 256 + (d as u16);
                                        assert(g6 == quad_group(a, b) && g7 == quad_group(c, d));
                                        Some(IpAddress::V6(s0, s1, s2, s3, s4, s5, g6, g7))
                                    },
                                    _ => None,
                                }
                            },
                            _ => None,
                        },
                    }
                },
            }
        },
    }
}

/// Appending text free of c does not move the last occurrence.
proof fn lemma_last_index_append_nosep(x: Seq<char>, suf: Seq<char>, c: char)
    requires
        forall|k: int| 0 <= k < suf.len() ==> suf[k] != c,
    ensures
        last_index_of(x + suf, c) == last_index_of(x, c),
    decreases suf.len(),
{
    if suf.len() == 0 {
        assert(x + suf =~= x);
    } else {
        let s = x + suf;
        assert(s.last() == suf.last());
        assert(s.drop_last() =~= x + suf.drop_last());
        assert(forall|k: int| 0 <= k < suf.drop_last().len() ==> suf.drop_last()[k] == suf[k]);
        lemma_last_index_append_nosep(x, suf.drop_last(), c);
    }
}

/// The substituted head of a quad-tail literal with nothing before the
/// `::` reads as the all-zero address.
proof fn lemma_parse_sub_zeros()
    ensures
        parse_ipv6_groups(seq![':', ':', '0', ':', '0']) == Some(
            IpAddress::V6(0u16, 0u16, 0u16, 0u16, 0u16, 0u16, 0u16, 0u16),
        ),
{
    let s = seq![':', ':', '0', ':', '0'];
    assert(s[0] == ':' && s[1] == ':');
    lemma_fdc_scan(s, 0, 0);
    assert(first_double_colon(s, 0) == 0);
    let left = s.take(0);
    let right = s.skip(2);
    assert(left =~= Seq::<char>::empty());
    let segs2: Seq<u16> = seq![0u16, 0u16];
    assert(hex_char(0) == '0');
    assert(hex_of(0) =~= seq!['0']);
    assert(hex_groups_text(segs2, 1, 2) =~= seq!['0']);
    assert(hex_groups_text(segs2, 0, 2) =~= seq!['0', ':', '0']);
    assert(right =~= hex_groups_text(segs2, 0, 2));
    lemma_split_groups(segs2, 0, 2);
    lemma_groups_vals_texts(segs2, 0, 2);
    assert(segs2.subrange(0, 2) =~= segs2);
    let recon = Seq::<u16>::empty() + Seq::new(6, |k: int| 0u16) + segs2;
    assert(recon =~= seq![0u16, 0u16, 0u16, 0u16, 0u16, 0u16, 0u16, 0u16]);
    assert(parse_ipv6_groups(s) == Some(v6_of(recon)));
}

/// The substituted head of a quad-tail literal behind `::ffff:` reads as
/// the mapped prefix.
proof fn lemma_parse_sub_mapped()
    ensures
        parse_ipv6_groups(seq![':', ':', 'f', 'f', 'f', 'f', ':', '0', ':', '0']) == Some(
            IpAddress::V6(0u16, 0u16, 0u16, 0u16, 0u16, 0xffffu16, 0u16, 0u16),
        ),
{
    let s = seq![':', ':', 'f', 'f', 'f', 'f', ':', '0', ':', '0'];
    assert(s[0] == ':' && s[1] == ':');
    lemma_fdc_scan(s, 0, 0);
    assert(first_double_colon(s, 0) == 0);
    let left = s.take(0);
    let right = s.skip(2);
    assert(left =~= Seq::<char>::empty());
    let segs3: Seq<u16> = seq![0xffffu16, 0u16, 0u16];
    assert(hex_char(0) == '0');
    assert(hex_char(15) == 'f');
    assert(hex_of(0) =~= seq!['0']);
    assert(hex_of(15) =~= seq!['f']);
    assert(hex_of(255) =~= seq!['f', 'f']);
    assert(hex_of(4095) =~= seq!['f', 'f', 'f']);
    assert(hex_of(65535) =~= seq!['f', 'f', 'f', 'f']);
    assert(hex_groups_text(segs3, 2, 3) =~= seq!['0']);
    assert(hex_groups_text(segs3, 1, 3) =~= seq!['0', ':', '0']);
    assert(hex_groups_text(segs3, 0, 3) =~= seq!['f', 'f', 'f', 'f', ':', '0', ':', '0']);
    assert(right =~= hex_groups_text(segs3, 0, 3));
    lemma_split_groups(segs3, 0, 3);
    lemma_groups_vals_texts(segs3, 0, 3);
    assert(segs3.subrange(0, 3) =~= segs3);
    let recon = Seq::<u16>::empty() + Seq::new(5, |k: int| 0u16) + segs3;
    assert(recon =~= seq![0u16, 0u16, 0u16, 0u16, 0u16, 0xffffu16, 0u16, 0u16]);
    assert(parse_ipv6_groups(s) == Some(v6_of(recon)));
}

/// An IPv4-compatible rendering parses back to the address.
#[verifier::rlimit(100)]
#[verifier::spinoff_prover]
pub proof fn lemma_v6_compat_roundtrip(s6: u16, s7: u16)
    ensures
        parse_ip_spec(compat_text(s6, s7)) == Some(
            IpAddress::V6(0u16, 0u16, 0u16, 0u16, 0u16, 0u16, s6, s7),
        ),
        forall|k: int|
            0 <= k < compat_text(s6, s7).len() ==> ip_char_ok(#[trigger] compat_text(s6, s7)[k])
                && compat_text(s6, s7)[k] != '/',
{
    let qa = (s6 / 256) as u8;
    let qb = (s6 % 256) as u8;
    let qc = (s7 / 256) as u8;
    let qd = (s7 % 256) as u8;
    lemma_ipv4_roundtrip(qa, qb, qc, qd);
    let qt = ipv4_text(qa as nat, qb as nat, qc as nat, qd as nat);
    assert(quad_text(s6, s7) == qt);
    let t = compat_text(s6, s7);
    assert(t[0] == ':' && t[1] == ':');
    assert(forall|k: int| 0 <= k < qt.len() ==> t[2 + k] == qt[k]);
    assert(first_index_from(t, ':', 0) == 0);
    lemma_dec_of_roundtrip(qa as nat);
    let la = dec_of(qa as nat).len() as int;
    assert(qt[la] == '.');
    assert(t[2 + la] == '.');
    assert(first_index_from(t, '.', 0) >= 0) by {
        lemma_first_index_from_bounds(t, '.', 0);
        if first_index_from(t, '.', 0) == -1 {
            lemma_first_index_none(t, '.', 0);
            assert(t[2 + la] != '.');
            assert(false);
        }
    }
    assert(forall|k: int| 0 <= k < qt.len() ==> #[trigger] qt[k] != ':');
    lemma_last_index_append_nosep(seq![':', ':'], qt, ':');
    assert(last_index_of(seq![':', ':'], ':') == 1) by {
        assert(seq![':', ':'].last() == ':');
    }
    assert(last_index_of(t, ':') == 1);
    assert(t.take(2) =~= seq![':', ':']);
    assert(t.skip(2) =~= qt);
    assert(first_index_from(qt, ':', 0) == -1) by {
        lemma_first_index_absent(qt, ':', 0);
    }
    assert(parse_ipv4(qt) == Some(IpAddress::V4(qa, qb, qc, qd)));
    assert(t.take(2) + seq!['0', ':', '0'] =~= seq![':', ':', '0', ':', '0']);
    lemma_parse_sub_zeros();
    assert(quad_group(qa, qb) == s6) by {
        assert(s6 / 256 * 256 + s6 % 256 == s6) by (nonlinear_arith);
    }
    assert(quad_group(qc, qd) == s7) by {
        assert(s7 / 256 * 256 + s7 % 256 == s7) by (nonlinear_arith);
    }
    assert(parse_ipv6(t) == Some(IpAddress::V6(0u16, 0u16, 0u16, 0u16, 0u16, 0u16, s6, s7)));
    assert forall|k: int| 0 <= k < t.len() implies ip_char_ok(#[trigger] t[k]) && t[k] != '/' by {
        if k >= 2 {
            assert(t[k] == qt[k - 2]);
        }
    }
}

/// An IPv4-mapped rendering parses back to the address.
#[verifier::rlimit(100)]
#[verifier::spinoff_prover]
pub proof fn lemma_v6_mapped_roundtrip(s6: u16, s7: u16)
    ensures
        parse_ip_spec(mapped_text(s6, s7)) == Some(
            IpAddress::V6(0u16, 0u16, 0u16, 0u16, 0u16, 0xffffu16, s6, s7),
        ),
        forall|k: int|
            0 <= k < mapped_text(s6, s7).len() ==> ip_char_ok(#[trigger] mapped_text(s6, s7)[k])
                && mapped_text(s6, s7)[k] != '/',
{
    let qa = (s6 / 256) as u8;
    let qb = (s6 % 256) as u8;
    let qc = (s7 / 256) as u8;
    let qd = (s7 % 256) as u8;
    lemma_ipv4_roundtrip(qa, qb, qc, qd);
    let qt = ipv4_text(qa as nat, qb as nat, qc as nat, qd as nat);
    assert(quad_text(s6, s7) == qt);
    let pre: Seq<char> = seq![':', ':', 'f', 'f', 'f', 'f', ':'];
    let t = mapped_text(s6, s7);
    assert(t[0] == ':' && t[1] == ':');
    assert(forall|k: int| 0 <= k < qt.len() ==> t[7 + k] == qt[k]);
    assert(first_index_from(t, ':', 0) == 0);
    lemma_dec_of_roundtrip(qa as nat);
    let la = dec_of(qa as nat).len() as int;
    assert(qt[la] == '.');
    assert(t[7 + la] == '.');
    assert(first_index_from(t, '.', 0) >= 0) by {
        lemma_first_index_from_bounds(t, '.', 0);
        if first_index_from(t, '.', 0) == -1 {
            lemma_first_index_none(t, '.', 0);
            assert(t[7 + la] != '.');
            assert(false);
        }
    }
    assert(forall|k: int| 0 <= k < qt.len() ==> #[trigger] qt[k] != ':');
    lemma_last_index_append_nosep(pre, qt, ':');
    assert(last_index_of(pre, ':') == 6) by {
        assert(pre.last() == ':');
    }
    assert(pre + qt =~= t);
    assert(last_index_of(t, ':') == 6);
    assert(t.take(7) =~= pre);
    assert(t.skip(7) =~= qt);
    assert(first_index_from(qt, ':', 0) == -1) by {
        lemma_first_index_absent(qt, ':', 0);
    }
    assert(parse_ipv4(qt) == Some(IpAddress::V4(qa, qb, qc, qd)));
    assert(t.take(7) + seq!['0', ':', '0'] =~= seq![':', ':', 'f', 'f', 'f', 'f', ':', '0', ':', '0']);
    lemma_parse_sub_mapped();
    assert(quad_group(qa, qb) == s6) by {
        assert(s6 / 256 * 256 + s6 % 256 == s6) by (nonlinear_arith);
    }
    assert(quad_group(qc, qd) == s7) by {
        assert(s7 / 256 * 256 + s7 % 256 == s7) by (nonlinear_arith);
    }
    assert(parse_ipv6(t) == Some(
        IpAddress::V6(0u16, 0u16, 0u16, 0u16, 0u16, 0xffffu16, s6, s7),
    ));
    assert forall|k: int| 0 <= k < t.len() implies ip_char_ok(#[trigger] t[k]) && t[k] != '/' by {
        if k >= 7 {
            assert(t[k] == qt[k - 7]);
        } else {
            assert(t[k] == pre[k]);
            assert(hex_val('f') == 15);
        }
    }
}

} // verus!
