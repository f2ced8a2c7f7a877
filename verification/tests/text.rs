use port_proxy::connection::Protocol;
use port_proxy::info::parse_port_key;
use port_proxy::text::{digit_of, parse_port, same_text, split_once_only};

#[test]
fn digits_have_their_values() {
    let digits = ['0', '1', '2', '3', '4', '5', '6', '7', '8', '9'];
    for (value, c) in digits.iter().enumerate() {
        assert_eq!(digit_of(*c), Some(value as u8));
    }
    assert_eq!(digit_of('a'), None);
    assert_eq!(digit_of('/'), None);
    assert_eq!(digit_of(':'), None);
    assert_eq!(digit_of(' '), None);
    assert_eq!(digit_of('٣'), None);
}

#[test]
fn parse_port_reads_decimal_numbers() {
    assert_eq!(parse_port("8080"), Some(8080));
    assert_eq!(parse_port("0"), Some(0));
    assert_eq!(parse_port("1"), Some(1));
    assert_eq!(parse_port("65535"), Some(65535));
    assert_eq!(parse_port("0080"), Some(80));
    assert_eq!(parse_port("+443"), Some(443));
    assert_eq!(parse_port("00000000000000000000000000000000000065535"), Some(65535));
}

#[test]
fn parse_port_rejects_what_is_no_port() {
    assert_eq!(parse_port(""), None);
    assert_eq!(parse_port("+"), None);
    assert_eq!(parse_port("-"), None);
    assert_eq!(parse_port("-1"), None);
    assert_eq!(parse_port("-0"), None);
    assert_eq!(parse_port("++1"), None);
    assert_eq!(parse_port("1+"), None);
    assert_eq!(parse_port("65536"), None);
    assert_eq!(parse_port("70000"), None);
    assert_eq!(parse_port("99999999999999999999999999"), None);
    assert_eq!(parse_port(" 80"), None);
    assert_eq!(parse_port("80 "), None);
    assert_eq!(parse_port("80a"), None);
    assert_eq!(parse_port("0x50"), None);
    assert_eq!(parse_port("8_0"), None);
    assert_eq!(parse_port("８０"), None);
}

#[test]
fn parse_port_agrees_with_the_standard_parser() {
    let samples = [
        "", "+", "-", "0", "00", "+0", "-0", "7", "80", "+80", "-80", "080", "65534", "65535",
        "65536", "65540", "99999", "100000", "4294967296", "18446744073709551616", "1e3", "12 ",
        " 12", "1.0", "abc", "٣", "+-1", "+ 1", "6553５",
    ];
    for text in samples {
        assert_eq!(parse_port(text), text.parse::<u16>().ok(), "{:?}", text);
    }
    for n in 0u32..70000 {
        let text = n.to_string();
        assert_eq!(parse_port(&text), text.parse::<u16>().ok());
    }
}

#[test]
fn same_text_compares_characters() {
    assert!(same_text("", ""));
    assert!(same_text("tcp", "tcp"));
    assert!(!same_text("tcp", "udp"));
    assert!(!same_text("tcp", "tc"));
    assert!(!same_text("tc", "tcp"));
    assert!(!same_text("tcp", "TCP"));
    assert!(same_text("héllo", "héllo"));
    assert!(!same_text("héllo", "hèllo"));
}

#[test]
fn split_once_only_needs_exactly_one_separator() {
    assert_eq!(split_once_only("8080/tcp", '/'), Some(("8080", "tcp")));
    assert_eq!(split_once_only("/", '/'), Some(("", "")));
    assert_eq!(split_once_only("/tcp", '/'), Some(("", "tcp")));
    assert_eq!(split_once_only("80/", '/'), Some(("80", "")));
    assert_eq!(split_once_only("é/ü", '/'), Some(("é", "ü")));
    assert_eq!(split_once_only("", '/'), None);
    assert_eq!(split_once_only("8080", '/'), None);
    assert_eq!(split_once_only("80/tcp/udp", '/'), None);
    assert_eq!(split_once_only("//", '/'), None);
    assert_eq!(split_once_only("80//tcp", '/'), None);
}

#[test]
fn split_once_only_agrees_with_splitting_into_two() {
    let samples = ["", "a", "/", "a/", "/a", "a/b", "a/b/c", "//", "ab/cd", "é/ü/", "no slash"];
    for text in samples {
        let parts: Vec<&str> = text.split('/').collect();
        let expected = if parts.len() == 2 { Some((parts[0], parts[1])) } else { None };
        assert_eq!(split_once_only(text, '/'), expected, "{:?}", text);
    }
}

#[test]
fn protocol_names_are_lower_case_tcp_and_udp() {
    assert_eq!(Protocol::from_name("tcp"), Some(Protocol::Tcp));
    assert_eq!(Protocol::from_name("udp"), Some(Protocol::Udp));
    assert_eq!(Protocol::from_name("TCP"), None);
    assert_eq!(Protocol::from_name("Udp"), None);
    assert_eq!(Protocol::from_name("sctp"), None);
    assert_eq!(Protocol::from_name(""), None);
    assert_eq!(Protocol::from_name("tcp "), None);
    assert_eq!(Protocol::from_name("tcpx"), None);
}

#[test]
fn port_keys_name_a_port_and_a_protocol() {
    assert_eq!(parse_port_key("8080/tcp"), Some((8080, Protocol::Tcp)));
    assert_eq!(parse_port_key("53/udp"), Some((53, Protocol::Udp)));
    assert_eq!(parse_port_key("+53/udp"), Some((53, Protocol::Udp)));
    assert_eq!(parse_port_key("65535/tcp"), Some((65535, Protocol::Tcp)));
    assert_eq!(parse_port_key("65536/tcp"), None);
    assert_eq!(parse_port_key("8080"), None);
    assert_eq!(parse_port_key("8080/"), None);
    assert_eq!(parse_port_key("/tcp"), None);
    assert_eq!(parse_port_key("8080/sctp"), None);
    assert_eq!(parse_port_key("8080/tcp/udp"), None);
    assert_eq!(parse_port_key("tcp/8080"), None);
    assert_eq!(parse_port_key("8080 /tcp"), None);
    assert_eq!(parse_port_key(""), None);
}
