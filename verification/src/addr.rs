//! IPv4 addresses.

use vstd::prelude::*;
use crate::number::{
    all_digits, decimal, digits_value, is_digit, lemma_decimal_digits, number_accepted_iff,
    parse_number, push_decimal,
};
use crate::text::{
    pieces_rejoin, rejoined, separator_separates, split, split_at_char, texts,
    unseparated_text_is_one_piece,
};

verus! {

/// An IPv4 address, as its four octets in network order: `a.b.c.d`.
#[derive(Debug, Clone, Copy, PartialEq, Eq, Structural)]
pub struct Ipv4Addr {
    pub a: u8,
    pub b: u8,
    pub c: u8,
    pub d: u8,
}

/// 255.255.255.255, the limited broadcast address.
pub open spec fn limited_broadcast() -> Ipv4Addr {
    Ipv4Addr { a: 255, b: 255, c: 255, d: 255 }
}

/// One octet of the dotted notation: one to three digits without a leading
/// zero, denoting at most 255.
pub open spec fn parse_octet(s: Seq<char>) -> Option<u8> {
    if 1 <= s.len() <= 3 && all_digits(s) && (s.len() == 1 || s[0] != '0') && digits_value(s)
        <= 255 {
        Some(digits_value(s) as u8)
    } else {
        None
    }
}

/// The address that a text in dotted notation denotes.
pub open spec fn parse_addr(s: Seq<char>) -> Option<Ipv4Addr> {
    let parts = split_at_char(s, '.');
    if parts.len() == 4 {
        match (
            parse_octet(parts[0]),
            parse_octet(parts[1]),
            parse_octet(parts[2]),
            parse_octet(parts[3]),
        ) {
            (Some(a), Some(b), Some(c), Some(d)) => Some(Ipv4Addr { a, b, c, d }),
            _ => None,
        }
    } else {
        None
    }
}

impl Ipv4Addr {
    /// The address `a.b.c.d`.
    pub fn new(a: u8, b: u8, c: u8, d: u8) -> (r: Ipv4Addr)
        ensures
            r == (Ipv4Addr { a, b, c, d }),
    {
        Ipv4Addr { a, b, c, d }
    }

    /// 255.255.255.255.
    pub fn broadcast() -> (r: Ipv4Addr)
        ensures
            r == limited_broadcast(),
    {
        Ipv4Addr::new(255, 255, 255, 255)
    }

    /// The four octets in network order.
    pub fn octets(&self) -> (r: [u8; 4])
        ensures
            r@ == seq![self.a, self.b, self.c, self.d],
    {
        let r: [u8; 4] = [self.a, self.b, self.c, self.d];
        assert(r@ =~= seq![self.a, self.b, self.c, self.d]);
        r
    }

    /// The address as one number, first octet most significant.
    pub open spec fn bits(self) -> u32 {
        (self.a * 0x100_0000 + self.b * 0x1_0000 + self.c * 0x100 + self.d) as u32
    }

    /// The address as one number, first octet most significant.
    pub fn to_bits(&self) -> (r: u32)
        ensures
            r == self.bits(),
    {
        self.a as u32 * 0x100_0000 + self.b as u32 * 0x1_0000 + self.c as u32 * 0x100
            + self.d as u32
    }

    /// Whether the address lies in 224.0.0.0/4.
    pub open spec fn multicast(self) -> bool {
        224 <= self.a <= 239
    }

    /// Whether the address lies in 224.0.0.0/4.
    pub fn is_multicast(&self) -> (r: bool)
        ensures
            r == self.multicast(),
    {
        224 <= self.a && self.a <= 239
    }

    /// The address in dotted notation.
    pub open spec fn dotted(self) -> Seq<char> {
        decimal(self.a as nat) + "."@ + decimal(self.b as nat) + "."@ + decimal(self.c as nat)
            + "."@ + decimal(self.d as nat)
    }

    /// Appends the address in dotted notation.
    pub fn push_to(&self, out: &mut String)
        ensures
            final(out)@ == old(out)@ + self.dotted(),
    {
        let ghost start = out@;
        push_decimal(out, self.a as u64);
        out.append(".");
        push_decimal(out, self.b as u64);
        out.append(".");
        push_decimal(out, self.c as u64);
        out.append(".");
        push_decimal(out, self.d as u64);
        proof {
            assert(out@ =~= start + self.dotted());
        }
    }

    /// The address in dotted notation.
    pub fn to_string(&self) -> (r: String)
        ensures
            r@ == self.dotted(),
    {
        let mut r: String = String::new();
        self.push_to(&mut r);
        proof {
            assert(r@ =~= self.dotted());
        }
        r
    }

    /// Reads an address in dotted notation.
    pub fn parse(s: &[char]) -> (r: Option<Ipv4Addr>)
        ensures
            r == parse_addr(s@),
    {
        let parts: Vec<&[char]> = split(s, '.');
        proof {
            assert(forall|i: int| 0 <= i < parts@.len() ==> texts(parts@)[i] == parts@[i]@);
        }
        if parts.len() != 4 {
            return None;
        }
        match (
            read_octet(parts[0]),
            read_octet(parts[1]),
            read_octet(parts[2]),
            read_octet(parts[3]),
        ) {
            (Some(a), Some(b), Some(c), Some(d)) => Some(Ipv4Addr { a, b, c, d }),
            _ => None,
        }
    }
}

/// Reads one octet of the dotted notation.
fn read_octet(s: &[char]) -> (r: Option<u8>)
    ensures
        r == parse_octet(s@),
{
    if s.len() == 0 || s.len() > 3 || s[0] == '+' || (s.len() > 1 && s[0] == '0') {
        proof {
            if s@.len() > 0 && all_digits(s@) {
                assert(is_digit(s@[0]));
            }
        }
        return None;
    }
    let parsed = parse_number(s, 255);
    proof {
        number_accepted_iff(s@, 255, digits_value(s@));
        if let Ok(v) = parsed {
            number_accepted_iff(s@, 255, v as nat);
        }
    }
    match parsed {
        Ok(v) => Some(v as u8),
        Err(_) => None,
    }
}

/// An octet in decimal is read back as that octet.
proof fn lemma_octet_round_trips(n: u8)
    ensures
        parse_octet(decimal(n as nat)) == Some(n),
        !decimal(n as nat).contains('.'),
{
    let s = decimal(n as nat);
    lemma_decimal_digits(n as nat);
    reveal_with_fuel(decimal, 3);
    assert forall|i: int| 0 <= i < s.len() implies s[i] != '.' by {
        assert(is_digit(s[i]));
    }
}

/// An address in dotted notation is read back as that address.
pub proof fn dotted_notation_round_trips(ip: Ipv4Addr)
    ensures
        parse_addr(ip.dotted()) == Some(ip),
{
    let a = decimal(ip.a as nat);
    let b = decimal(ip.b as nat);
    let c = decimal(ip.c as nat);
    let d = decimal(ip.d as nat);
    lemma_octet_round_trips(ip.a);
    lemma_octet_round_trips(ip.b);
    lemma_octet_round_trips(ip.c);
    lemma_octet_round_trips(ip.d);
    reveal_strlit(".");
    let cd = c.push('.') + d;
    let bcd = b.push('.') + cd;
    assert(ip.dotted() =~= a.push('.') + bcd);
    separator_separates(a, '.', bcd);
    separator_separates(b, '.', cd);
    separator_separates(c, '.', d);
    unseparated_text_is_one_piece(a, '.');
    unseparated_text_is_one_piece(b, '.');
    unseparated_text_is_one_piece(c, '.');
    unseparated_text_is_one_piece(d, '.');
    assert(split_at_char(ip.dotted(), '.') =~= seq![a, b, c, d]);
}

/// A text denotes an address exactly when it is that address in dotted
/// notation: four numbers in decimal with dots between them.
pub proof fn only_dotted_notation_is_an_address(s: Seq<char>, ip: Ipv4Addr)
    ensures
        parse_addr(s) == Some(ip) <==> s == decimal(ip.a as nat).push('.') + (decimal(
            ip.b as nat,
        ).push('.') + (decimal(ip.c as nat).push('.') + decimal(ip.d as nat))),
{
    let a = decimal(ip.a as nat);
    let b = decimal(ip.b as nat);
    let c = decimal(ip.c as nat);
    let d = decimal(ip.d as nat);
    let text = a.push('.') + (b.push('.') + (c.push('.') + d));
    reveal_strlit(".");
    assert(ip.dotted() =~= text);
    dotted_notation_round_trips(ip);
    if parse_addr(s) == Some(ip) {
        let parts = split_at_char(s, '.');
        lemma_octet_is_decimal(parts[0], ip.a);
        lemma_octet_is_decimal(parts[1], ip.b);
        lemma_octet_is_decimal(parts[2], ip.c);
        lemma_octet_is_decimal(parts[3], ip.d);
        lemma_four_pieces(s);
        assert(s =~= text);
    }
}

/// An octet is written in decimal.
proof fn lemma_octet_is_decimal(s: Seq<char>, n: u8)
    requires
        parse_octet(s) == Some(n),
    ensures
        s == decimal(n as nat),
{
    lemma_decimal_digits(n as nat);
    let t = decimal(n as nat);
    reveal_with_fuel(decimal, 4);
    reveal_with_fuel(digits_value, 4);
    assert forall|i: int| 0 <= i < s.len() implies is_digit(#[trigger] s[i]) by {}
    assert(is_digit(s[0]));
    if s.len() == 1 {
        assert(s.drop_last() =~= Seq::<char>::empty());
        assert(s =~= t);
    } else if s.len() == 2 {
        assert(is_digit(s[1]));
        assert(s.drop_last().drop_last() =~= Seq::<char>::empty());
        assert(s.drop_last().last() == s[0]);
        assert(s =~= t);
    } else {
        assert(is_digit(s[1]) && is_digit(s[2]));
        assert(s.drop_last().drop_last().drop_last() =~= Seq::<char>::empty());
        assert(s.drop_last().last() == s[1]);
        assert(s.drop_last().drop_last().last() == s[0]);
        assert(s =~= t);
    }
}

/// Four pieces with dots between them make the text.
proof fn lemma_four_pieces(s: Seq<char>)
    requires
        split_at_char(s, '.').len() == 4,
    ensures
        ({
            let p = split_at_char(s, '.');
            s == p[0].push('.') + (p[1].push('.') + (p[2].push('.') + p[3]))
        }),
{
    pieces_rejoin(s, '.');
    let p = split_at_char(s, '.');
    reveal_with_fuel(rejoined, 5);
    assert(p.drop_last().drop_last().drop_last().drop_last() =~= Seq::<Seq<char>>::empty());
    assert(s =~= p[0].push('.') + (p[1].push('.') + (p[2].push('.') + p[3])));
}

/// An address as a number has its octets as base-256 digits, and the addresses
/// from 224.0.0.0 on, below 240.0.0.0, are the multicast ones.
pub proof fn address_is_a_number(ip: Ipv4Addr)
    ensures
        ip.bits() == ((ip.a * 256 + ip.b) * 256 + ip.c) * 256 + ip.d,
        ip.multicast() <==> 0xe000_0000 <= ip.bits() < 0xf000_0000,
        ip == limited_broadcast() <==> ip.bits() == 0xffff_ffff,
{
}

} // verus!
