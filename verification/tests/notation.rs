use ddnsfw::addr::parse_ip_port;
use ddnsfw::addr::parse_u16;
use ddnsfw::addr::Ipv4Addr;
use ddnsfw::addr::Rule;
use ddnsfw::text;

fn chars(s: &str) -> Vec<char> {
    s.chars().collect()
}

fn ip(a: u8, b: u8, c: u8, d: u8) -> Ipv4Addr {
    Ipv4Addr { a, b, c, d }
}

fn string(part: &[char]) -> String {
    part.iter().collect()
}

#[test]
fn white_space_is_that_of_the_standard_library() {
    for n in 0..0x110000u32 {
        if let Some(c) = char::from_u32(n) {
            assert_eq!(text::is_whitespace(c), c.is_whitespace(), "{:x}", n);
        }
    }
}

#[test]
fn trimming_is_that_of_the_standard_library() {
    for s in ["", " ", "  a b \t\n", "\u{3000}x\u{a0}", "a", "\r\nhost:22\r\n"] {
        assert_eq!(string(text::trim(&chars(s))), s.trim());
    }
}

#[test]
fn lines_are_those_of_the_standard_library() {
    for s in ["", "\n", "a", "a\n", "a\r\nb\r\n", "a\n\nb", "a\rb\r", "\r\n\r\n", "x\r\r\ny"] {
        let mine: Vec<String> = text::lines(&chars(s)).iter().map(|l| string(l)).collect();
        let theirs: Vec<String> = s.lines().map(|l| l.to_string()).collect();
        assert_eq!(mine, theirs, "{:?}", s);
    }
}

#[test]
fn words_are_those_of_the_standard_library() {
    for s in ["", "   ", "a b", " -A  DDNS-FW\t-s ", "\u{2003}x\u{2003}y"] {
        let mine: Vec<String> =
            text::split_whitespace(&chars(s)).iter().map(|w| string(w)).collect();
        let theirs: Vec<String> = s.split_whitespace().map(|w| w.to_string()).collect();
        assert_eq!(mine, theirs, "{:?}", s);
    }
}

#[test]
fn searching_is_that_of_the_standard_library() {
    for (s, part) in [("", ""), ("abc", ""), ("", "a"), ("aab", "ab"), ("abab", "ba"), ("ab", "abc")]
    {
        assert_eq!(text::contains(&chars(s), part), s.contains(part));
        assert_eq!(
            text::strip_prefix(&chars(s), part).map(string),
            s.strip_prefix(part).map(|r| r.to_string())
        );
    }
    assert_eq!(text::rfind(&chars("a:b:c"), ':'), Some(3));
    assert_eq!(text::rfind(&chars("abc"), ':'), None);
    assert_eq!(string(text::trim_end_matches(&chars("1.2.3.4/32/32"), "/32")), "1.2.3.4");
    assert_eq!(string(text::trim_end_matches(&chars("1.2.3.4"), "/32")), "1.2.3.4");
}

#[test]
fn characters_become_a_string() {
    assert_eq!(text::string_of(&chars("héllo \u{1f600}")), "héllo \u{1f600}");
    assert_eq!(text::string_of(&[]), "");
}

#[test]
fn numbers_are_read_like_the_standard_library_reads_them() {
    for s in [
        "0", "22", "+22", "65535", "65536", "99999999999", "", "+", "-1", " 22", "22 ", "0022", "2a",
        "++1", "+0", "000000000000000000000001",
    ] {
        assert_eq!(parse_u16(&chars(s)), s.parse::<u16>().ok(), "{:?}", s);
    }
}

#[test]
fn only_four_plain_numbers_are_an_address() {
    assert_eq!(Ipv4Addr::parse(&chars("1.2.3.4")), Some(ip(1, 2, 3, 4)));
    assert_eq!(Ipv4Addr::parse(&chars("0.0.0.0")), Some(ip(0, 0, 0, 0)));
    assert_eq!(Ipv4Addr::parse(&chars("255.255.255.255")), Some(ip(255, 255, 255, 255)));
    for s in [
        "256.1.1.1", "1.2.3", "1.2.3.4.5", "01.2.3.4", "1..2.3", "", "a.b.c.d", " 1.2.3.4", "1.2.3.4 ",
        "+1.2.3.4", "1.2.3.4/32", "192.168.000.1", "1.2.3.", ".1.2.3", "1.2.3.999",
    ] {
        assert_eq!(Ipv4Addr::parse(&chars(s)), None, "{:?}", s);
    }
}

#[test]
fn an_address_is_read_back_from_its_notation() {
    for x in [ip(0, 0, 0, 0), ip(1, 20, 255, 7), ip(255, 255, 255, 255), ip(8, 8, 8, 8)] {
        assert_eq!(Ipv4Addr::parse(&chars(&x.to_text())), Some(x));
    }
    assert_eq!(ip(203, 0, 113, 5).to_text(), "203.0.113.5");
}

#[test]
fn a_rule_is_an_address_and_a_port() {
    let rule = Some(Rule { ip: ip(1, 2, 3, 4), port: 22 });
    assert_eq!(parse_ip_port("1.2.3.4:22"), rule);
    assert_eq!(parse_ip_port("  1.2.3.4:22\n"), rule);
    assert_eq!(parse_ip_port("1.2.3.4:+22"), rule);
    assert_eq!(parse_ip_port("1.2.3.4:0"), Some(Rule { ip: ip(1, 2, 3, 4), port: 0 }));
    assert_eq!(parse_ip_port(""), None);
    assert_eq!(parse_ip_port("   "), None);
    assert_eq!(parse_ip_port("1.2.3.4"), None);
    assert_eq!(parse_ip_port("1.2.3.4: 22"), None);
    assert_eq!(parse_ip_port("1.2.3.4 :22"), None);
    assert_eq!(parse_ip_port("1.2.3.4:70000"), None);
    assert_eq!(parse_ip_port("host:22"), None);
    assert_eq!(parse_ip_port("1.2.3.4:5:6"), None);
}

#[test]
fn a_rule_is_read_back_from_its_notation() {
    let rule = Rule { ip: ip(10, 0, 0, 1), port: 65535 };
    let mut out: Vec<char> = Vec::new();
    rule.append_to(&mut out);
    let s = string(&out);
    assert_eq!(s, "10.0.0.1:65535");
    assert_eq!(parse_ip_port(&s), Some(rule));
}
