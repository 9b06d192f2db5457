use bcr::addr::Ipv4Addr;
use bcr::number::{parse_number, push_decimal, IntError};
use bcr::text::{
    contains_char, is_text, is_whitespace, same_text, split, split_whitespace, string_of,
    strip_prefix, trim,
};

fn chars(s: &str) -> Vec<char> {
    s.chars().collect()
}

fn strings(parts: Vec<&[char]>) -> Vec<String> {
    parts.iter().map(|p| string_of(p)).collect()
}

fn addr(s: &str) -> Option<Ipv4Addr> {
    Ipv4Addr::parse(&chars(s))
}

#[test]
fn dotted_notation() {
    assert_eq!(Ipv4Addr::new(10, 0, 0, 255).to_string(), "10.0.0.255");
    assert_eq!(Ipv4Addr::new(0, 1, 20, 103).to_string(), "0.1.20.103");
    assert_eq!(addr("0.1.20.103"), Some(Ipv4Addr::new(0, 1, 20, 103)));
    assert_eq!(addr("255.255.255.255"), Some(Ipv4Addr::broadcast()));
}

#[test]
fn dotted_notation_is_strict() {
    for bad in [
        "", "1", "1.2.3", "1.2.3.4.5", "1.2.3.", ".1.2.3", "1..2.3", "256.1.1.1", "1.2.3.1000",
        "01.2.3.4", "1.2.3.00", "+1.2.3.4", "1.2.3.4 ", " 1.2.3.4", "1.2.3.a", "1,2,3,4",
    ] {
        assert_eq!(addr(bad), None, "{}", bad);
    }
}

#[test]
fn dotted_notation_agrees_with_std() {
    for n in 0u32..=255 {
        for s in [
            format!("{}.0.0.1", n),
            format!("1.{}.3.4", n * 3),
            format!("1.2.{:03}.4", n),
            format!("1.2.3.{}", n + 200),
        ] {
            let expected = s.parse().ok().map(|ip: core::net::Ipv4Addr| ip.octets());
            assert_eq!(addr(&s).map(|ip| ip.octets()), expected, "{}", s);
        }
    }
}

#[test]
fn address_as_a_number() {
    assert_eq!(Ipv4Addr::new(192, 168, 1, 2).to_bits(), 0xc0a80102);
    assert_eq!(Ipv4Addr::broadcast().to_bits(), 0xffffffff);
    assert_eq!(Ipv4Addr::new(1, 2, 3, 4).octets(), [1, 2, 3, 4]);
}

#[test]
fn multicast_range() {
    assert!(!Ipv4Addr::new(223, 255, 255, 255).is_multicast());
    assert!(Ipv4Addr::new(224, 0, 0, 0).is_multicast());
    assert!(Ipv4Addr::new(239, 255, 255, 255).is_multicast());
    assert!(!Ipv4Addr::new(240, 0, 0, 0).is_multicast());
}

#[test]
fn numbers() {
    let read = |s: &str, max: u32| parse_number(&chars(s), max);
    assert_eq!(read("0", 65535), Ok(0));
    assert_eq!(read("00065535", 65535), Ok(65535));
    assert_eq!(read("+7", 9), Ok(7));
    assert_eq!(read("4294967295", u32::MAX), Ok(u32::MAX));
    assert_eq!(read("4294967296", u32::MAX), Err(IntError::PosOverflow));
    assert_eq!(read("10", 9), Err(IntError::PosOverflow));
    assert_eq!(read("", 9), Err(IntError::Empty));
    assert_eq!(read("+", 9), Err(IntError::InvalidDigit));
    assert_eq!(read("-1", 9), Err(IntError::InvalidDigit));
    assert_eq!(read("++1", 9), Err(IntError::InvalidDigit));
    assert_eq!(read("99x", 9), Err(IntError::PosOverflow));
    assert_eq!(read("9x9", 9), Err(IntError::InvalidDigit));
}

#[test]
fn numbers_agree_with_std() {
    for s in [
        "", "+", "-", "1", "-1", "+1", "0", "000", "65535", "65536", "655350", "6553x", "x", "1x",
        "99999999999999999999", "99999x", " 1", "1 ", "+065535", "\u{0661}",
    ] {
        let ours = parse_number(&chars(s), 65535).map_err(|e| e.text().to_string());
        let std = s.parse::<u16>().map(|v| v as u32).map_err(|e| e.to_string());
        assert_eq!(ours, std, "{}", s);
    }
}

#[test]
fn decimal_digits() {
    let mut out = String::from("n=");
    push_decimal(&mut out, 0);
    push_decimal(&mut out, 10);
    push_decimal(&mut out, u64::MAX);
    assert_eq!(out, "n=01018446744073709551615");
}

#[test]
fn splitting() {
    assert_eq!(strings(split(&chars("a:b"), ':')), ["a", "b"]);
    assert_eq!(strings(split(&chars(""), ':')), [""]);
    assert_eq!(strings(split(&chars(":"), ':')), ["", ""]);
    assert_eq!(strings(split(&chars("a::b:"), ':')), ["a", "", "b", ""]);
    assert_eq!(strings(split(&chars("abc"), ':')), ["abc"]);
}

#[test]
fn words_of_a_line() {
    assert_eq!(strings(split_whitespace(&chars("  allow\tudp\u{3000}x  y "))), [
        "allow", "udp", "x", "y"
    ]);
    assert_eq!(strings(split_whitespace(&chars(" \t "))).len(), 0);
    assert_eq!(strings(split_whitespace(&chars(""))).len(), 0);
    assert_eq!(strings(split_whitespace(&chars("one"))), ["one"]);
}

#[test]
fn whitespace_agrees_with_std() {
    for c in (0..=0x10ffffu32).filter_map(char::from_u32) {
        assert_eq!(is_whitespace(c), c.is_whitespace(), "{:x}", c as u32);
    }
}

#[test]
fn trimming() {
    assert_eq!(string_of(trim(&chars("  a b \r"))), "a b");
    assert_eq!(string_of(trim(&chars("a"))), "a");
    assert_eq!(string_of(trim(&chars(" \n "))), "");
    assert_eq!(string_of(trim(&chars(""))), "");
}

#[test]
fn comparing_and_searching() {
    assert!(is_text(&chars("any"), "any"));
    assert!(!is_text(&chars("anyx"), "any"));
    assert!(!is_text(&chars("anx"), "any"));
    assert!(same_text("eth0", "eth0"));
    assert!(!same_text("eth0", "eth1"));
    assert!(!same_text("eth0", "eth00"));
    assert!(contains_char(&chars("1-2"), '-'));
    assert!(!contains_char(&chars("12"), '-'));
    assert_eq!(strip_prefix(&chars("snat=x"), "snat=").map(string_of), Some("x".to_string()));
    assert_eq!(strip_prefix(&chars("snat="), "snat=").map(string_of), Some(String::new()));
    assert!(strip_prefix(&chars("sna"), "snat=").is_none());
    assert!(strip_prefix(&chars("dnat=x"), "snat=").is_none());
}
